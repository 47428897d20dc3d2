use clickr_cli::utils::Span;

#[test]
fn test_new() {
    let span = Span::new(5, 10);
    assert_eq!(span.start(), 5);
    assert_eq!(span.len(), 10);
    assert_eq!(span.end(), 15);
}

#[test]
fn test_new_end() {
    let span = Span::new_end(5, 15);
    assert_eq!(span.start(), 5);
    assert_eq!(span.len(), 10);
    assert_eq!(span.end(), 15);
}

#[test]
fn test_join() {
    let span1 = Span::new(1, 2); // [1, 3)
    let span2 = Span::new(2, 1); // [2, 3)
    let joined = span1.join(span2);
    assert_eq!(joined.start(), 1);
    assert_eq!(joined.len(), 2);
    assert_eq!(joined.end(), 3);

    let span3 = Span::new(0, 5); // [0, 5)
    let span4 = Span::new(3, 3); // [3, 6)
    let joined2 = span3.join(span4);
    assert_eq!(joined2.start(), 0);
    assert_eq!(joined2.len(), 6);
    assert_eq!(joined2.end(), 6);
}

#[test]
fn test_join_disjoint() {
    let span1 = Span::new(1, 1); // [1, 2)
    let span2 = Span::new(5, 1); // [5, 6)
    let joined = span1.join(span2);
    assert_eq!(joined.start(), 1);
    assert_eq!(joined.len(), 5);
    assert_eq!(joined.end(), 6);
}

#[test]
fn test_start() {
    let span = Span::new(10, 5);
    assert_eq!(span.start(), 10);
}

#[test]
fn test_len() {
    let span = Span::new(10, 5);
    assert_eq!(span.len(), 5);
}

#[test]
fn test_end() {
    let span = Span::new(10, 5);
    assert_eq!(span.end(), 15);
}

#[test]
fn test_as_str() {
    let src: Vec<u8> = b"hello world".to_vec();
    let span = Span::new(6, 5);
    assert_eq!(span.as_str(&src), b"world".to_vec());
}
