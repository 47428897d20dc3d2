//! The closed set of physical key identifiers.

use vstd::prelude::*;

verus! {

/// A physical key on the keyboard. Unrecognized text is a parse-time error,
/// so every value of this type names a real key.
#[derive(Debug, Clone, Copy, PartialEq, Eq, Hash, Structural)]
pub enum KeyIdent {
    A, B, C, D, E, F,
    G, H, I, J, K, L,
    M, N, O, P, Q, R,
    S, T, U, V, W, X,
    Y, Z, Num0, Num1, Num2, Num3,
    Num4, Num5, Num6, Num7, Num8, Num9,
    F1, F2, F3, F4, F5, F6,
    F7, F8, F9, F10, F11, F12,
    ShiftLeft, ShiftRight, CtrlLeft, CtrlRight, AltLeft, AltRight,
    MetaLeft, MetaRight, Esc, Tab, CapsLock, Enter,
    Backspace, Space, Insert, Delete, Home, End,
    PageUp, PageDown, Up, Down, Left, Right,
    Minus, Equals, LeftBracket, RightBracket, Backslash, Semicolon,
    Quote, Comma, Period, Slash, Grave,
}

/// ASCII lowercase of one byte.
pub open spec fn spec_lower_byte(b: u8) -> u8 {
    if 'A' as u8 <= b <= 'Z' as u8 {
        (b + 32) as u8
    } else {
        b
    }
}

/// ASCII lowercase of a byte sequence.
pub open spec fn spec_lower(s: Seq<u8>) -> Seq<u8> {
    s.map_values(|b: u8| spec_lower_byte(b))
}

/// ASCII-lowercases a byte vector.
pub fn lower_bytes(s: &Vec<u8>) -> (r: Vec<u8>)
    ensures
        r@ == spec_lower(s@),
{
    let mut r: Vec<u8> = Vec::new();
    let mut i: usize = 0;
    while i < s.len()
        invariant
            0 <= i <= s@.len(),
            r@ =~= spec_lower(s@.take(i as int)),
        decreases s@.len() - i,
    {
        let b = s[i];
        if 'A' as u8 <= b && b <= 'Z' as u8 {
            r.push(b + 32);
        } else {
            r.push(b);
        }
        i = i + 1;
        proof {
            assert(s@.take(i as int).drop_last() =~= s@.take(i - 1int));
            assert(spec_lower(s@.take(i as int)) =~= spec_lower(s@.take(i - 1int)).push(
                spec_lower_byte(s@[i - 1int]),
            ));
        }
    }
    proof {
        assert(s@.take(s@.len() as int) =~= s@);
    }
    r
}

/// The key named by the given (already lowercased) bytes, if any.
pub open spec fn spec_key_of_lower(s: Seq<u8>) -> Option<KeyIdent> {
    if s == seq!['a' as u8] {
        Some(KeyIdent::A)
    } else if s == seq!['b' as u8] {
        Some(KeyIdent::B)
    } else if s == seq!['c' as u8] {
        Some(KeyIdent::C)
    } else if s == seq!['d' as u8] {
        Some(KeyIdent::D)
    } else if s == seq!['e' as u8] {
        Some(KeyIdent::E)
    } else if s == seq!['f' as u8] {
        Some(KeyIdent::F)
    } else if s == seq!['g' as u8] {
        Some(KeyIdent::G)
    } else if s == seq!['h' as u8] {
        Some(KeyIdent::H)
    } else if s == seq!['i' as u8] {
        Some(KeyIdent::I)
    } else if s == seq!['j' as u8] {
        Some(KeyIdent::J)
    } else if s == seq!['k' as u8] {
        Some(KeyIdent::K)
    } else if s == seq!['l' as u8] {
        Some(KeyIdent::L)
    } else if s == seq!['m' as u8] {
        Some(KeyIdent::M)
    } else if s == seq!['n' as u8] {
        Some(KeyIdent::N)
    } else if s == seq!['o' as u8] {
        Some(KeyIdent::O)
    } else if s == seq!['p' as u8] {
        Some(KeyIdent::P)
    } else if s == seq!['q' as u8] {
        Some(KeyIdent::Q)
    } else if s == seq!['r' as u8] {
        Some(KeyIdent::R)
    } else if s == seq!['s' as u8] {
        Some(KeyIdent::S)
    } else if s == seq!['t' as u8] {
        Some(KeyIdent::T)
    } else if s == seq!['u' as u8] {
        Some(KeyIdent::U)
    } else if s == seq!['v' as u8] {
        Some(KeyIdent::V)
    } else if s == seq!['w' as u8] {
        Some(KeyIdent::W)
    } else if s == seq!['x' as u8] {
        Some(KeyIdent::X)
    } else if s == seq!['y' as u8] {
        Some(KeyIdent::Y)
    } else if s == seq!['z' as u8] {
        Some(KeyIdent::Z)
    } else if s == seq!['0' as u8] {
        Some(KeyIdent::Num0)
    } else if s == seq!['1' as u8] {
        Some(KeyIdent::Num1)
    } else if s == seq!['2' as u8] {
        Some(KeyIdent::Num2)
    } else if s == seq!['3' as u8] {
        Some(KeyIdent::Num3)
    } else if s == seq!['4' as u8] {
        Some(KeyIdent::Num4)
    } else if s == seq!['5' as u8] {
        Some(KeyIdent::Num5)
    } else if s == seq!['6' as u8] {
        Some(KeyIdent::Num6)
    } else if s == seq!['7' as u8] {
        Some(KeyIdent::Num7)
    } else if s == seq!['8' as u8] {
        Some(KeyIdent::Num8)
    } else if s == seq!['9' as u8] {
        Some(KeyIdent::Num9)
    } else if s == seq!['f' as u8, '1' as u8] {
        Some(KeyIdent::F1)
    } else if s == seq!['f' as u8, '2' as u8] {
        Some(KeyIdent::F2)
    } else if s == seq!['f' as u8, '3' as u8] {
        Some(KeyIdent::F3)
    } else if s == seq!['f' as u8, '4' as u8] {
        Some(KeyIdent::F4)
    } else if s == seq!['f' as u8, '5' as u8] {
        Some(KeyIdent::F5)
    } else if s == seq!['f' as u8, '6' as u8] {
        Some(KeyIdent::F6)
    } else if s == seq!['f' as u8, '7' as u8] {
        Some(KeyIdent::F7)
    } else if s == seq!['f' as u8, '8' as u8] {
        Some(KeyIdent::F8)
    } else if s == seq!['f' as u8, '9' as u8] {
        Some(KeyIdent::F9)
    } else if s == seq!['f' as u8, '1' as u8, '0' as u8] {
        Some(KeyIdent::F10)
    } else if s == seq!['f' as u8, '1' as u8, '1' as u8] {
        Some(KeyIdent::F11)
    } else if s == seq!['f' as u8, '1' as u8, '2' as u8] {
        Some(KeyIdent::F12)
    } else if s == seq!['s' as u8, 'h' as u8, 'i' as u8, 'f' as u8, 't' as u8, 'l' as u8, 'e' as u8, 'f' as u8, 't' as u8] {
        Some(KeyIdent::ShiftLeft)
    } else if s == seq!['s' as u8, 'h' as u8, 'i' as u8, 'f' as u8, 't' as u8, 'r' as u8, 'i' as u8, 'g' as u8, 'h' as u8, 't' as u8] {
        Some(KeyIdent::ShiftRight)
    } else if s == seq!['c' as u8, 't' as u8, 'r' as u8, 'l' as u8, 'l' as u8, 'e' as u8, 'f' as u8, 't' as u8] {
        Some(KeyIdent::CtrlLeft)
    } else if s == seq!['c' as u8, 't' as u8, 'r' as u8, 'l' as u8, 'r' as u8, 'i' as u8, 'g' as u8, 'h' as u8, 't' as u8] {
        Some(KeyIdent::CtrlRight)
    } else if s == seq!['a' as u8, 'l' as u8, 't' as u8, 'l' as u8, 'e' as u8, 'f' as u8, 't' as u8] {
        Some(KeyIdent::AltLeft)
    } else if s == seq!['a' as u8, 'l' as u8, 't' as u8, 'r' as u8, 'i' as u8, 'g' as u8, 'h' as u8, 't' as u8] {
        Some(KeyIdent::AltRight)
    } else if s == seq!['m' as u8, 'e' as u8, 't' as u8, 'a' as u8, 'l' as u8, 'e' as u8, 'f' as u8, 't' as u8] {
        Some(KeyIdent::MetaLeft)
    } else if s == seq!['m' as u8, 'e' as u8, 't' as u8, 'a' as u8, 'r' as u8, 'i' as u8, 'g' as u8, 'h' as u8, 't' as u8] {
        Some(KeyIdent::MetaRight)
    } else if s == seq!['e' as u8, 's' as u8, 'c' as u8] {
        Some(KeyIdent::Esc)
    } else if s == seq!['t' as u8, 'a' as u8, 'b' as u8] {
        Some(KeyIdent::Tab)
    } else if s == seq!['c' as u8, 'a' as u8, 'p' as u8, 's' as u8, 'l' as u8, 'o' as u8, 'c' as u8, 'k' as u8] {
        Some(KeyIdent::CapsLock)
    } else if s == seq!['e' as u8, 'n' as u8, 't' as u8, 'e' as u8, 'r' as u8] {
        Some(KeyIdent::Enter)
    } else if s == seq!['b' as u8, 'a' as u8, 'c' as u8, 'k' as u8, 's' as u8, 'p' as u8, 'a' as u8, 'c' as u8, 'e' as u8] {
        Some(KeyIdent::Backspace)
    } else if s == seq!['s' as u8, 'p' as u8, 'a' as u8, 'c' as u8, 'e' as u8] {
        Some(KeyIdent::Space)
    } else if s == seq!['i' as u8, 'n' as u8, 's' as u8, 'e' as u8, 'r' as u8, 't' as u8] {
        Some(KeyIdent::Insert)
    } else if s == seq!['d' as u8, 'e' as u8, 'l' as u8, 'e' as u8, 't' as u8, 'e' as u8] {
        Some(KeyIdent::Delete)
    } else if s == seq!['h' as u8, 'o' as u8, 'm' as u8, 'e' as u8] {
        Some(KeyIdent::Home)
    } else if s == seq!['e' as u8, 'n' as u8, 'd' as u8] {
        Some(KeyIdent::End)
    } else if s == seq!['p' as u8, 'a' as u8, 'g' as u8, 'e' as u8, 'u' as u8, 'p' as u8] {
        Some(KeyIdent::PageUp)
    } else if s == seq!['p' as u8, 'a' as u8, 'g' as u8, 'e' as u8, 'd' as u8, 'o' as u8, 'w' as u8, 'n' as u8] {
        Some(KeyIdent::PageDown)
    } else if s == seq!['u' as u8, 'p' as u8] {
        Some(KeyIdent::Up)
    } else if s == seq!['d' as u8, 'o' as u8, 'w' as u8, 'n' as u8] {
        Some(KeyIdent::Down)
    } else if s == seq!['l' as u8, 'e' as u8, 'f' as u8, 't' as u8] {
        Some(KeyIdent::Left)
    } else if s == seq!['r' as u8, 'i' as u8, 'g' as u8, 'h' as u8, 't' as u8] {
        Some(KeyIdent::Right)
    } else if s == seq!['-' as u8] {
        Some(KeyIdent::Minus)
    } else if s == seq!['=' as u8] {
        Some(KeyIdent::Equals)
    } else if s == seq!['[' as u8] {
        Some(KeyIdent::LeftBracket)
    } else if s == seq![']' as u8] {
        Some(KeyIdent::RightBracket)
    } else if s == seq!['\\' as u8] {
        Some(KeyIdent::Backslash)
    } else if s == seq![';' as u8] {
        Some(KeyIdent::Semicolon)
    } else if s == seq!['\'' as u8] {
        Some(KeyIdent::Quote)
    } else if s == seq![',' as u8] {
        Some(KeyIdent::Comma)
    } else if s == seq!['.' as u8] {
        Some(KeyIdent::Period)
    } else if s == seq!['/' as u8] {
        Some(KeyIdent::Slash)
    } else if s == seq!['`' as u8] {
        Some(KeyIdent::Grave)
    } else {
        None
    }
}

/// The key named by the given bytes, compared case-insensitively.
pub open spec fn spec_key_of(s: Seq<u8>) -> Option<KeyIdent> {
    spec_key_of_lower(spec_lower(s))
}

/// Looks a key identifier up by name, case-insensitively.
pub fn key_ident_from_bytes(bytes: &Vec<u8>) -> (r: Option<KeyIdent>)
    ensures
        r == spec_key_of(bytes@),
{
    let l = lower_bytes(bytes);
    if eq1(&l, 'a' as u8) {
        return Some(KeyIdent::A);
    }
    if eq1(&l, 'b' as u8) {
        return Some(KeyIdent::B);
    }
    if eq1(&l, 'c' as u8) {
        return Some(KeyIdent::C);
    }
    if eq1(&l, 'd' as u8) {
        return Some(KeyIdent::D);
    }
    if eq1(&l, 'e' as u8) {
        return Some(KeyIdent::E);
    }
    if eq1(&l, 'f' as u8) {
        return Some(KeyIdent::F);
    }
    if eq1(&l, 'g' as u8) {
        return Some(KeyIdent::G);
    }
    if eq1(&l, 'h' as u8) {
        return Some(KeyIdent::H);
    }
    if eq1(&l, 'i' as u8) {
        return Some(KeyIdent::I);
    }
    if eq1(&l, 'j' as u8) {
        return Some(KeyIdent::J);
    }
    if eq1(&l, 'k' as u8) {
        return Some(KeyIdent::K);
    }
    if eq1(&l, 'l' as u8) {
        return Some(KeyIdent::L);
    }
    if eq1(&l, 'm' as u8) {
        return Some(KeyIdent::M);
    }
    if eq1(&l, 'n' as u8) {
        return Some(KeyIdent::N);
    }
    if eq1(&l, 'o' as u8) {
        return Some(KeyIdent::O);
    }
    if eq1(&l, 'p' as u8) {
        return Some(KeyIdent::P);
    }
    if eq1(&l, 'q' as u8) {
        return Some(KeyIdent::Q);
    }
    if eq1(&l, 'r' as u8) {
        return Some(KeyIdent::R);
    }
    if eq1(&l, 's' as u8) {
        return Some(KeyIdent::S);
    }
    if eq1(&l, 't' as u8) {
        return Some(KeyIdent::T);
    }
    if eq1(&l, 'u' as u8) {
        return Some(KeyIdent::U);
    }
    if eq1(&l, 'v' as u8) {
        return Some(KeyIdent::V);
    }
    if eq1(&l, 'w' as u8) {
        return Some(KeyIdent::W);
    }
    if eq1(&l, 'x' as u8) {
        return Some(KeyIdent::X);
    }
    if eq1(&l, 'y' as u8) {
        return Some(KeyIdent::Y);
    }
    if eq1(&l, 'z' as u8) {
        return Some(KeyIdent::Z);
    }
    if eq1(&l, '0' as u8) {
        return Some(KeyIdent::Num0);
    }
    if eq1(&l, '1' as u8) {
        return Some(KeyIdent::Num1);
    }
    if eq1(&l, '2' as u8) {
        return Some(KeyIdent::Num2);
    }
    if eq1(&l, '3' as u8) {
        return Some(KeyIdent::Num3);
    }
    if eq1(&l, '4' as u8) {
        return Some(KeyIdent::Num4);
    }
    if eq1(&l, '5' as u8) {
        return Some(KeyIdent::Num5);
    }
    if eq1(&l, '6' as u8) {
        return Some(KeyIdent::Num6);
    }
    if eq1(&l, '7' as u8) {
        return Some(KeyIdent::Num7);
    }
    if eq1(&l, '8' as u8) {
        return Some(KeyIdent::Num8);
    }
    if eq1(&l, '9' as u8) {
        return Some(KeyIdent::Num9);
    }
    if eq2(&l, 'f' as u8, '1' as u8) {
        return Some(KeyIdent::F1);
    }
    if eq2(&l, 'f' as u8, '2' as u8) {
        return Some(KeyIdent::F2);
    }
    if eq2(&l, 'f' as u8, '3' as u8) {
        return Some(KeyIdent::F3);
    }
    if eq2(&l, 'f' as u8, '4' as u8) {
        return Some(KeyIdent::F4);
    }
    if eq2(&l, 'f' as u8, '5' as u8) {
        return Some(KeyIdent::F5);
    }
    if eq2(&l, 'f' as u8, '6' as u8) {
        return Some(KeyIdent::F6);
    }
    if eq2(&l, 'f' as u8, '7' as u8) {
        return Some(KeyIdent::F7);
    }
    if eq2(&l, 'f' as u8, '8' as u8) {
        return Some(KeyIdent::F8);
    }
    if eq2(&l, 'f' as u8, '9' as u8) {
        return Some(KeyIdent::F9);
    }
    if eq3(&l, 'f' as u8, '1' as u8, '0' as u8) {
        return Some(KeyIdent::F10);
    }
    if eq3(&l, 'f' as u8, '1' as u8, '1' as u8) {
        return Some(KeyIdent::F11);
    }
    if eq3(&l, 'f' as u8, '1' as u8, '2' as u8) {
        return Some(KeyIdent::F12);
    }
    if eq9(&l, 's' as u8, 'h' as u8, 'i' as u8, 'f' as u8, 't' as u8, 'l' as u8, 'e' as u8, 'f' as u8, 't' as u8) {
        return Some(KeyIdent::ShiftLeft);
    }
    if eq10(&l, 's' as u8, 'h' as u8, 'i' as u8, 'f' as u8, 't' as u8, 'r' as u8, 'i' as u8, 'g' as u8, 'h' as u8, 't' as u8) {
        return Some(KeyIdent::ShiftRight);
    }
    if eq8(&l, 'c' as u8, 't' as u8, 'r' as u8, 'l' as u8, 'l' as u8, 'e' as u8, 'f' as u8, 't' as u8) {
        return Some(KeyIdent::CtrlLeft);
    }
    if eq9(&l, 'c' as u8, 't' as u8, 'r' as u8, 'l' as u8, 'r' as u8, 'i' as u8, 'g' as u8, 'h' as u8, 't' as u8) {
        return Some(KeyIdent::CtrlRight);
    }
    if eq7(&l, 'a' as u8, 'l' as u8, 't' as u8, 'l' as u8, 'e' as u8, 'f' as u8, 't' as u8) {
        return Some(KeyIdent::AltLeft);
    }
    if eq8(&l, 'a' as u8, 'l' as u8, 't' as u8, 'r' as u8, 'i' as u8, 'g' as u8, 'h' as u8, 't' as u8) {
        return Some(KeyIdent::AltRight);
    }
    if eq8(&l, 'm' as u8, 'e' as u8, 't' as u8, 'a' as u8, 'l' as u8, 'e' as u8, 'f' as u8, 't' as u8) {
        return Some(KeyIdent::MetaLeft);
    }
    if eq9(&l, 'm' as u8, 'e' as u8, 't' as u8, 'a' as u8, 'r' as u8, 'i' as u8, 'g' as u8, 'h' as u8, 't' as u8) {
        return Some(KeyIdent::MetaRight);
    }
    if eq3(&l, 'e' as u8, 's' as u8, 'c' as u8) {
        return Some(KeyIdent::Esc);
    }
    if eq3(&l, 't' as u8, 'a' as u8, 'b' as u8) {
        return Some(KeyIdent::Tab);
    }
    if eq8(&l, 'c' as u8, 'a' as u8, 'p' as u8, 's' as u8, 'l' as u8, 'o' as u8, 'c' as u8, 'k' as u8) {
        return Some(KeyIdent::CapsLock);
    }
    if eq5(&l, 'e' as u8, 'n' as u8, 't' as u8, 'e' as u8, 'r' as u8) {
        return Some(KeyIdent::Enter);
    }
    if eq9(&l, 'b' as u8, 'a' as u8, 'c' as u8, 'k' as u8, 's' as u8, 'p' as u8, 'a' as u8, 'c' as u8, 'e' as u8) {
        return Some(KeyIdent::Backspace);
    }
    if eq5(&l, 's' as u8, 'p' as u8, 'a' as u8, 'c' as u8, 'e' as u8) {
        return Some(KeyIdent::Space);
    }
    if eq6(&l, 'i' as u8, 'n' as u8, 's' as u8, 'e' as u8, 'r' as u8, 't' as u8) {
        return Some(KeyIdent::Insert);
    }
    if eq6(&l, 'd' as u8, 'e' as u8, 'l' as u8, 'e' as u8, 't' as u8, 'e' as u8) {
        return Some(KeyIdent::Delete);
    }
    if eq4(&l, 'h' as u8, 'o' as u8, 'm' as u8, 'e' as u8) {
        return Some(KeyIdent::Home);
    }
    if eq3(&l, 'e' as u8, 'n' as u8, 'd' as u8) {
        return Some(KeyIdent::End);
    }
    if eq6(&l, 'p' as u8, 'a' as u8, 'g' as u8, 'e' as u8, 'u' as u8, 'p' as u8) {
        return Some(KeyIdent::PageUp);
    }
    if eq8(&l, 'p' as u8, 'a' as u8, 'g' as u8, 'e' as u8, 'd' as u8, 'o' as u8, 'w' as u8, 'n' as u8) {
        return Some(KeyIdent::PageDown);
    }
    if eq2(&l, 'u' as u8, 'p' as u8) {
        return Some(KeyIdent::Up);
    }
    if eq4(&l, 'd' as u8, 'o' as u8, 'w' as u8, 'n' as u8) {
        return Some(KeyIdent::Down);
    }
    if eq4(&l, 'l' as u8, 'e' as u8, 'f' as u8, 't' as u8) {
        return Some(KeyIdent::Left);
    }
    if eq5(&l, 'r' as u8, 'i' as u8, 'g' as u8, 'h' as u8, 't' as u8) {
        return Some(KeyIdent::Right);
    }
    if eq1(&l, '-' as u8) {
        return Some(KeyIdent::Minus);
    }
    if eq1(&l, '=' as u8) {
        return Some(KeyIdent::Equals);
    }
    if eq1(&l, '[' as u8) {
        return Some(KeyIdent::LeftBracket);
    }
    if eq1(&l, ']' as u8) {
        return Some(KeyIdent::RightBracket);
    }
    if eq1(&l, '\\' as u8) {
        return Some(KeyIdent::Backslash);
    }
    if eq1(&l, ';' as u8) {
        return Some(KeyIdent::Semicolon);
    }
    if eq1(&l, '\'' as u8) {
        return Some(KeyIdent::Quote);
    }
    if eq1(&l, ',' as u8) {
        return Some(KeyIdent::Comma);
    }
    if eq1(&l, '.' as u8) {
        return Some(KeyIdent::Period);
    }
    if eq1(&l, '/' as u8) {
        return Some(KeyIdent::Slash);
    }
    if eq1(&l, '`' as u8) {
        return Some(KeyIdent::Grave);
    }
    None
}

/// The fixed, daemon-facing name of a key: the string identifier the
/// remapping daemon expects, distinct from the internal enumeration name.
pub open spec fn spec_keybinder_name(k: KeyIdent) -> Seq<char> {
    match k {
        KeyIdent::A => "A"@,
        KeyIdent::B => "B"@,
        KeyIdent::C => "C"@,
        KeyIdent::D => "D"@,
        KeyIdent::E => "E"@,
        KeyIdent::F => "F"@,
        KeyIdent::G => "G"@,
        KeyIdent::H => "H"@,
        KeyIdent::I => "I"@,
        KeyIdent::J => "J"@,
        KeyIdent::K => "K"@,
        KeyIdent::L => "L"@,
        KeyIdent::M => "M"@,
        KeyIdent::N => "N"@,
        KeyIdent::O => "O"@,
        KeyIdent::P => "P"@,
        KeyIdent::Q => "Q"@,
        KeyIdent::R => "R"@,
        KeyIdent::S => "S"@,
        KeyIdent::T => "T"@,
        KeyIdent::U => "U"@,
        KeyIdent::V => "V"@,
        KeyIdent::W => "W"@,
        KeyIdent::X => "X"@,
        KeyIdent::Y => "Y"@,
        KeyIdent::Z => "Z"@,
        KeyIdent::Num0 => "0"@,
        KeyIdent::Num1 => "1"@,
        KeyIdent::Num2 => "2"@,
        KeyIdent::Num3 => "3"@,
        KeyIdent::Num4 => "4"@,
        KeyIdent::Num5 => "5"@,
        KeyIdent::Num6 => "6"@,
        KeyIdent::Num7 => "7"@,
        KeyIdent::Num8 => "8"@,
        KeyIdent::Num9 => "9"@,
        KeyIdent::F1 => "F1"@,
        KeyIdent::F2 => "F2"@,
        KeyIdent::F3 => "F3"@,
        KeyIdent::F4 => "F4"@,
        KeyIdent::F5 => "F5"@,
        KeyIdent::F6 => "F6"@,
        KeyIdent::F7 => "F7"@,
        KeyIdent::F8 => "F8"@,
        KeyIdent::F9 => "F9"@,
        KeyIdent::F10 => "F10"@,
        KeyIdent::F11 => "F11"@,
        KeyIdent::F12 => "F12"@,
        KeyIdent::ShiftLeft => "LeftShift"@,
        KeyIdent::ShiftRight => "RightShift"@,
        KeyIdent::CtrlLeft => "LeftControl"@,
        KeyIdent::CtrlRight => "RightControl"@,
        KeyIdent::AltLeft => "LeftAlt"@,
        KeyIdent::AltRight => "RightAlt"@,
        KeyIdent::MetaLeft => "LeftSuper"@,
        KeyIdent::MetaRight => "RightSuper"@,
        KeyIdent::Esc => "Escape"@,
        KeyIdent::Tab => "Tab"@,
        KeyIdent::CapsLock => "CapsLock"@,
        KeyIdent::Enter => "Enter"@,
        KeyIdent::Backspace => "Backspace"@,
        KeyIdent::Space => "Space"@,
        KeyIdent::Insert => "Insert"@,
        KeyIdent::Delete => "Delete"@,
        KeyIdent::Home => "Home"@,
        KeyIdent::End => "End"@,
        KeyIdent::PageUp => "PageUp"@,
        KeyIdent::PageDown => "PageDown"@,
        KeyIdent::Up => "ArrowUp"@,
        KeyIdent::Down => "ArrowDown"@,
        KeyIdent::Left => "ArrowLeft"@,
        KeyIdent::Right => "ArrowRight"@,
        KeyIdent::Minus => "-"@,
        KeyIdent::Equals => "="@,
        KeyIdent::LeftBracket => "["@,
        KeyIdent::RightBracket => "]"@,
        KeyIdent::Backslash => "\\"@,
        KeyIdent::Semicolon => ";"@,
        KeyIdent::Quote => "'"@,
        KeyIdent::Comma => ","@,
        KeyIdent::Period => "."@,
        KeyIdent::Slash => "/"@,
        KeyIdent::Grave => "`"@,
    }
}

impl KeyIdent {
    /// Serializes this key to the daemon-facing key-name string.
    pub fn to_keybinder_key(&self) -> (r: &'static str)
        ensures
            r@ == spec_keybinder_name(*self),
    {
        match self {
            KeyIdent::A => "A",
            KeyIdent::B => "B",
            KeyIdent::C => "C",
            KeyIdent::D => "D",
            KeyIdent::E => "E",
            KeyIdent::F => "F",
            KeyIdent::G => "G",
            KeyIdent::H => "H",
            KeyIdent::I => "I",
            KeyIdent::J => "J",
            KeyIdent::K => "K",
            KeyIdent::L => "L",
            KeyIdent::M => "M",
            KeyIdent::N => "N",
            KeyIdent::O => "O",
            KeyIdent::P => "P",
            KeyIdent::Q => "Q",
            KeyIdent::R => "R",
            KeyIdent::S => "S",
            KeyIdent::T => "T",
            KeyIdent::U => "U",
            KeyIdent::V => "V",
            KeyIdent::W => "W",
            KeyIdent::X => "X",
            KeyIdent::Y => "Y",
            KeyIdent::Z => "Z",
            KeyIdent::Num0 => "0",
            KeyIdent::Num1 => "1",
            KeyIdent::Num2 => "2",
            KeyIdent::Num3 => "3",
            KeyIdent::Num4 => "4",
            KeyIdent::Num5 => "5",
            KeyIdent::Num6 => "6",
            KeyIdent::Num7 => "7",
            KeyIdent::Num8 => "8",
            KeyIdent::Num9 => "9",
            KeyIdent::F1 => "F1",
            KeyIdent::F2 => "F2",
            KeyIdent::F3 => "F3",
            KeyIdent::F4 => "F4",
            KeyIdent::F5 => "F5",
            KeyIdent::F6 => "F6",
            KeyIdent::F7 => "F7",
            KeyIdent::F8 => "F8",
            KeyIdent::F9 => "F9",
            KeyIdent::F10 => "F10",
            KeyIdent::F11 => "F11",
            KeyIdent::F12 => "F12",
            KeyIdent::ShiftLeft => "LeftShift",
            KeyIdent::ShiftRight => "RightShift",
            KeyIdent::CtrlLeft => "LeftControl",
            KeyIdent::CtrlRight => "RightControl",
            KeyIdent::AltLeft => "LeftAlt",
            KeyIdent::AltRight => "RightAlt",
            KeyIdent::MetaLeft => "LeftSuper",
            KeyIdent::MetaRight => "RightSuper",
            KeyIdent::Esc => "Escape",
            KeyIdent::Tab => "Tab",
            KeyIdent::CapsLock => "CapsLock",
            KeyIdent::Enter => "Enter",
            KeyIdent::Backspace => "Backspace",
            KeyIdent::Space => "Space",
            KeyIdent::Insert => "Insert",
            KeyIdent::Delete => "Delete",
            KeyIdent::Home => "Home",
            KeyIdent::End => "End",
            KeyIdent::PageUp => "PageUp",
            KeyIdent::PageDown => "PageDown",
            KeyIdent::Up => "ArrowUp",
            KeyIdent::Down => "ArrowDown",
            KeyIdent::Left => "ArrowLeft",
            KeyIdent::Right => "ArrowRight",
            KeyIdent::Minus => "-",
            KeyIdent::Equals => "=",
            KeyIdent::LeftBracket => "[",
            KeyIdent::RightBracket => "]",
            KeyIdent::Backslash => "\\",
            KeyIdent::Semicolon => ";",
            KeyIdent::Quote => "'",
            KeyIdent::Comma => ",",
            KeyIdent::Period => ".",
            KeyIdent::Slash => "/",
            KeyIdent::Grave => "`",
        }
    }
}

/// Whether the vector holds exactly the given byte.
pub(crate) fn eq1(v: &Vec<u8>, b0: u8) -> (r: bool)
    ensures
        r == (v@ == seq![b0]),
{
    let r = v.len() == 1 && v[0] == b0;
    proof {
        if r { assert(v@ =~= seq![b0]); }
        if v@ == seq![b0] { assert(v@.len() == 1); }
    }
    r
}

/// Whether the vector holds exactly the given 2 bytes.
pub(crate) fn eq2(v: &Vec<u8>, b0: u8, b1: u8) -> (r: bool)
    ensures
        r == (v@ == seq![b0, b1]),
{
    let r = v.len() == 2 && v[0] == b0 && v[1] == b1;
    proof {
        if r { assert(v@ =~= seq![b0, b1]); }
        if v@ == seq![b0, b1] { assert(v@.len() == 2); }
    }
    r
}

/// Whether the vector holds exactly the given 3 bytes.
pub(crate) fn eq3(v: &Vec<u8>, b0: u8, b1: u8, b2: u8) -> (r: bool)
    ensures
        r == (v@ == seq![b0, b1, b2]),
{
    let r = v.len() == 3 && v[0] == b0 && v[1] == b1 && v[2] == b2;
    proof {
        if r { assert(v@ =~= seq![b0, b1, b2]); }
        if v@ == seq![b0, b1, b2] { assert(v@.len() == 3); }
    }
    r
}

/// Whether the vector holds exactly the given 4 bytes.
pub(crate) fn eq4(v: &Vec<u8>, b0: u8, b1: u8, b2: u8, b3: u8) -> (r: bool)
    ensures
        r == (v@ == seq![b0, b1, b2, b3]),
{
    let r = v.len() == 4 && v[0] == b0 && v[1] == b1 && v[2] == b2 && v[3] == b3;
    proof {
        if r { assert(v@ =~= seq![b0, b1, b2, b3]); }
        if v@ == seq![b0, b1, b2, b3] { assert(v@.len() == 4); }
    }
    r
}

/// Whether the vector holds exactly the given 5 bytes.
pub(crate) fn eq5(v: &Vec<u8>, b0: u8, b1: u8, b2: u8, b3: u8, b4: u8) -> (r: bool)
    ensures
        r == (v@ == seq![b0, b1, b2, b3, b4]),
{
    let r = v.len() == 5 && v[0] == b0 && v[1] == b1 && v[2] == b2 && v[3] == b3 && v[4] == b4;
    proof {
        if r { assert(v@ =~= seq![b0, b1, b2, b3, b4]); }
        if v@ == seq![b0, b1, b2, b3, b4] { assert(v@.len() == 5); }
    }
    r
}

/// Whether the vector holds exactly the given 6 bytes.
pub(crate) fn eq6(v: &Vec<u8>, b0: u8, b1: u8, b2: u8, b3: u8, b4: u8, b5: u8) -> (r: bool)
    ensures
        r == (v@ == seq![b0, b1, b2, b3, b4, b5]),
{
    let r = v.len() == 6 && v[0] == b0 && v[1] == b1 && v[2] == b2 && v[3] == b3 && v[4] == b4 && v[5] == b5;
    proof {
        if r { assert(v@ =~= seq![b0, b1, b2, b3, b4, b5]); }
        if v@ == seq![b0, b1, b2, b3, b4, b5] { assert(v@.len() == 6); }
    }
    r
}

/// Whether the vector holds exactly the given 7 bytes.
pub(crate) fn eq7(v: &Vec<u8>, b0: u8, b1: u8, b2: u8, b3: u8, b4: u8, b5: u8, b6: u8) -> (r: bool)
    ensures
        r == (v@ == seq![b0, b1, b2, b3, b4, b5, b6]),
{
    let r = v.len() == 7 && v[0] == b0 && v[1] == b1 && v[2] == b2 && v[3] == b3 && v[4] == b4 && v[5] == b5 && v[6] == b6;
    proof {
        if r { assert(v@ =~= seq![b0, b1, b2, b3, b4, b5, b6]); }
        if v@ == seq![b0, b1, b2, b3, b4, b5, b6] { assert(v@.len() == 7); }
    }
    r
}

/// Whether the vector holds exactly the given 8 bytes.
pub(crate) fn eq8(v: &Vec<u8>, b0: u8, b1: u8, b2: u8, b3: u8, b4: u8, b5: u8, b6: u8, b7: u8) -> (r: bool)
    ensures
        r == (v@ == seq![b0, b1, b2, b3, b4, b5, b6, b7]),
{
    let r = v.len() == 8 && v[0] == b0 && v[1] == b1 && v[2] == b2 && v[3] == b3 && v[4] == b4 && v[5] == b5 && v[6] == b6 && v[7] == b7;
    proof {
        if r { assert(v@ =~= seq![b0, b1, b2, b3, b4, b5, b6, b7]); }
        if v@ == seq![b0, b1, b2, b3, b4, b5, b6, b7] { assert(v@.len() == 8); }
    }
    r
}

/// Whether the vector holds exactly the given 9 bytes.
pub(crate) fn eq9(v: &Vec<u8>, b0: u8, b1: u8, b2: u8, b3: u8, b4: u8, b5: u8, b6: u8, b7: u8, b8: u8) -> (r: bool)
    ensures
        r == (v@ == seq![b0, b1, b2, b3, b4, b5, b6, b7, b8]),
{
    let r = v.len() == 9 && v[0] == b0 && v[1] == b1 && v[2] == b2 && v[3] == b3 && v[4] == b4 && v[5] == b5 && v[6] == b6 && v[7] == b7 && v[8] == b8;
    proof {
        if r { assert(v@ =~= seq![b0, b1, b2, b3, b4, b5, b6, b7, b8]); }
        if v@ == seq![b0, b1, b2, b3, b4, b5, b6, b7, b8] { assert(v@.len() == 9); }
    }
    r
}

/// Whether the vector holds exactly the given 10 bytes.
pub(crate) fn eq10(v: &Vec<u8>, b0: u8, b1: u8, b2: u8, b3: u8, b4: u8, b5: u8, b6: u8, b7: u8, b8: u8, b9: u8) -> (r: bool)
    ensures
        r == (v@ == seq![b0, b1, b2, b3, b4, b5, b6, b7, b8, b9]),
{
    let r = v.len() == 10 && v[0] == b0 && v[1] == b1 && v[2] == b2 && v[3] == b3 && v[4] == b4 && v[5] == b5 && v[6] == b6 && v[7] == b7 && v[8] == b8 && v[9] == b9;
    proof {
        if r { assert(v@ =~= seq![b0, b1, b2, b3, b4, b5, b6, b7, b8, b9]); }
        if v@ == seq![b0, b1, b2, b3, b4, b5, b6, b7, b8, b9] { assert(v@.len() == 10); }
    }
    r
}

/// Whether the vector holds exactly the given 11 bytes.
pub(crate) fn eq11(v: &Vec<u8>, b0: u8, b1: u8, b2: u8, b3: u8, b4: u8, b5: u8, b6: u8, b7: u8, b8: u8, b9: u8, b10: u8) -> (r: bool)
    ensures
        r == (v@ == seq![b0, b1, b2, b3, b4, b5, b6, b7, b8, b9, b10]),
{
    let r = v.len() == 11 && v[0] == b0 && v[1] == b1 && v[2] == b2 && v[3] == b3 && v[4] == b4 && v[5] == b5 && v[6] == b6 && v[7] == b7 && v[8] == b8 && v[9] == b9 && v[10] == b10;
    proof {
        if r { assert(v@ =~= seq![b0, b1, b2, b3, b4, b5, b6, b7, b8, b9, b10]); }
        if v@ == seq![b0, b1, b2, b3, b4, b5, b6, b7, b8, b9, b10] { assert(v@.len() == 11); }
    }
    r
}

} // verus!
