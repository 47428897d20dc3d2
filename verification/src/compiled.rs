//! Lowering of a checked profile into the flat, daemon-facing dispatch table.
//!
//! Every statement becomes one or more compiled remappings. While the
//! remappings of a layer are produced, a conflict detector runs over them:
//! a map from basic trigger to the claiming statement, and a trie over the
//! press/release steps of sequence triggers. Two statements whose trigger
//! paths collide — an identical basic trigger, a duplicate or prefix
//! relationship between sequences, or one shared step path with two
//! behaviors — abort lowering with both statements' spans.

use crate::ast;
use crate::ast::key::KeyIdent;
use crate::ast::{ConfigData, ConfigDataModel};
use crate::check::{layer_names, lemma_find_layer_props, resolve_layer_name, spec_find_layer};
use crate::diag::{msg, DiagKind, Diagnostic, Severity};
use crate::utils::{Span, Spanned};
use vstd::prelude::*;

verus! {

/// Which platform the daemon runs on: decides the shell invocation that an
/// `open_app` bind expands to.
#[derive(Debug, Clone, Copy, PartialEq, Eq, Structural)]
pub enum Platform {
    MacOs,
    Linux,
    Windows,
}

/// A compiled profile: the artifact handed to the daemon.
#[derive(Debug, Clone)]
pub struct Profile {
    pub profile_name: Vec<u8>,
    pub default_layer: usize,
    pub layers: Vec<Layer>,
}

/// One compiled layer: a name and its flat remapping records.
#[derive(Debug, Clone)]
pub struct Layer {
    pub layer_name: Vec<u8>,
    pub remappings: Vec<Remapping>,
}

/// One remapping record: basic (single event) or sequence (timed steps).
#[derive(Debug, Clone)]
pub enum Remapping {
    Basic(BasicRemapping),
    Sequence(SequenceRemapping),
}

/// A single-event trigger mapped to binds.
#[derive(Debug, Clone)]
pub struct BasicRemapping {
    pub trigger: BasicTrigger,
    pub binds: Vec<Bind>,
}

/// A timed multi-step trigger path mapped to binds and a behavior.
#[derive(Debug, Clone)]
pub struct SequenceRemapping {
    pub triggers: Vec<AdvancedTrigger>,
    pub binds: Vec<Bind>,
    pub behavior: Behavior,
}

/// The trigger of a basic remapping.
#[derive(Debug, Clone, PartialEq, Eq)]
pub enum BasicTrigger {
    KeyPress { value: KeyIdent },
    KeyRelease { value: KeyIdent },
    AppFocused { app_name: Vec<u8> },
}

/// One step of a sequence trigger path.
#[derive(Debug, Clone, Copy, PartialEq, Eq, Hash, Structural)]
pub enum AdvancedTrigger {
    KeyPress { value: KeyIdent },
    KeyRelease { value: KeyIdent },
    MinimumWait { duration: usize },
    MaximumWait { duration: usize },
}

/// One compiled bind action.
#[derive(Debug, Clone, PartialEq, Eq)]
pub enum Bind {
    PressKey { value: KeyIdent },
    ReleaseKey { value: KeyIdent },
    SwitchLayer { value: usize },
    Wait { value: usize },
    RunScript { interpreter: Vec<u8>, script: Vec<u8> },
}

/// A compiled behavior: how the daemon treats the original event.
#[derive(Debug, Clone, Copy, PartialEq, Eq, Hash, Structural)]
pub enum Behavior {
    Capture,
    Release,
    Default,
}

// --- Mathematical models of the compiled shapes -------------------------

/// The model of a basic trigger, with names as byte sequences.
#[verifier::ext_equal]
pub enum BasicTriggerV {
    KeyPress(KeyIdent),
    KeyRelease(KeyIdent),
    AppFocused(Seq<u8>),
}

/// The model of a compiled bind.
#[verifier::ext_equal]
pub enum BindV {
    PressKey(KeyIdent),
    ReleaseKey(KeyIdent),
    SwitchLayer(int),
    Wait(int),
    RunScript(Seq<u8>, Seq<u8>),
}

/// The model of a remapping record.
#[verifier::ext_equal]
pub enum RemappingV {
    Basic { trigger: BasicTriggerV, binds: Seq<BindV> },
    Sequence { triggers: Seq<AdvancedTrigger>, binds: Seq<BindV>, behavior: Behavior },
}

/// The model of a basic trigger value.
pub open spec fn basic_trigger_view(t: BasicTrigger) -> BasicTriggerV {
    match t {
        BasicTrigger::KeyPress { value } => BasicTriggerV::KeyPress(value),
        BasicTrigger::KeyRelease { value } => BasicTriggerV::KeyRelease(value),
        BasicTrigger::AppFocused { app_name } => BasicTriggerV::AppFocused(app_name@),
    }
}

/// The model of a compiled bind value.
pub open spec fn bind_view(b: Bind) -> BindV {
    match b {
        Bind::PressKey { value } => BindV::PressKey(value),
        Bind::ReleaseKey { value } => BindV::ReleaseKey(value),
        Bind::SwitchLayer { value } => BindV::SwitchLayer(value as int),
        Bind::Wait { value } => BindV::Wait(value as int),
        Bind::RunScript { interpreter, script } => BindV::RunScript(interpreter@, script@),
    }
}

/// The models of a list of compiled binds.
pub open spec fn binds_view(bs: Seq<Bind>) -> Seq<BindV> {
    bs.map_values(|b: Bind| bind_view(b))
}

/// The model of a remapping record.
pub open spec fn remapping_view(r: Remapping) -> RemappingV {
    match r {
        Remapping::Basic(b) => RemappingV::Basic {
            trigger: basic_trigger_view(b.trigger),
            binds: binds_view(b.binds@),
        },
        Remapping::Sequence(s) => RemappingV::Sequence {
            triggers: s.triggers@,
            binds: binds_view(s.binds@),
            behavior: s.behavior,
        },
    }
}

/// The models of a list of remapping records.
pub open spec fn remappings_view(rs: Seq<Remapping>) -> Seq<RemappingV> {
    rs.map_values(|r: Remapping| remapping_view(r))
}

// --- Spec-level lowering ------------------------------------------------

/// The compiled form of a source behavior: `wait` defers to the daemon.
pub open spec fn spec_behavior(b: ast::Behavior) -> Behavior {
    match b {
        ast::Behavior::Capture => Behavior::Capture,
        ast::Behavior::Release => Behavior::Release,
        ast::Behavior::Wait => Behavior::Default,
    }
}

/// An explicit behavior wins over the configured default.
pub open spec fn spec_resolved_behavior(
    b: Option<Spanned<ast::Behavior>>,
    cfg: ConfigDataModel,
) -> Behavior {
    match b {
        Some(s) => spec_behavior(s.value),
        None => spec_behavior(cfg.default_behavior),
    }
}

/// An explicit timeout wins over the configured default.
pub open spec fn spec_resolved_timeout(t: Option<Spanned<usize>>, def: usize) -> usize {
    match t {
        Some(s) => s.value,
        None => def,
    }
}

/// The separator-interspersed form of a step list: a separator between each
/// two successive steps, never leading or trailing.
pub open spec fn spec_intersperse(
    steps: Seq<AdvancedTrigger>,
    sep: AdvancedTrigger,
) -> Seq<AdvancedTrigger> {
    if steps.len() == 0 {
        Seq::empty()
    } else {
        Seq::new((2 * steps.len() - 1) as nat, |i: int| if i % 2 == 0 {
            steps[i / 2]
        } else {
            sep
        })
    }
}

/// One press step per chord key.
pub open spec fn spec_press_steps(keys: Seq<KeyIdent>) -> Seq<AdvancedTrigger> {
    keys.map_values(|k: KeyIdent| AdvancedTrigger::KeyPress { value: k })
}

/// Press then release for each sequence key in order, with a maximum-wait
/// marker between each consecutive (press, release) pair — never inside a
/// pair, leading, or trailing.
pub open spec fn spec_sequence_steps(
    keys: Seq<KeyIdent>,
    wait: AdvancedTrigger,
) -> Seq<AdvancedTrigger> {
    if keys.len() == 0 {
        Seq::empty()
    } else {
        Seq::new((3 * keys.len() - 1) as nat, |i: int| if i % 3 == 0 {
            AdvancedTrigger::KeyPress { value: keys[i / 3] }
        } else if i % 3 == 1 {
            AdvancedTrigger::KeyRelease { value: keys[i / 3] }
        } else {
            wait
        })
    }
}

/// The steps a combo key contributes: both halves, or the marked one.
pub open spec fn spec_combo_piece(k: ast::Key) -> Seq<AdvancedTrigger> {
    match k {
        ast::Key::Unspecified(s) => seq![
            AdvancedTrigger::KeyPress { value: s.value },
            AdvancedTrigger::KeyRelease { value: s.value },
        ],
        ast::Key::Down(s) => seq![AdvancedTrigger::KeyPress { value: s.value }],
        ast::Key::Up(s) => seq![AdvancedTrigger::KeyRelease { value: s.value }],
    }
}

/// The concatenated steps of every combo key.
pub open spec fn spec_combo_steps(keys: Seq<ast::Key>) -> Seq<AdvancedTrigger>
    decreases keys.len(),
{
    if keys.len() == 0 {
        Seq::empty()
    } else {
        spec_combo_piece(keys.first()) + spec_combo_steps(keys.drop_first())
    }
}

/// The interpreter an `open_app` bind runs under.
pub open spec fn spec_open_app_interpreter(platform: Platform) -> Seq<u8> {
    match platform {
        Platform::Windows => seq![
            'c' as u8, 'm' as u8, 'd' as u8, '.' as u8, 'e' as u8, 'x' as u8, 'e' as u8,
        ],
        _ => seq!['s' as u8, 'h' as u8],
    }
}

/// The script an `open_app` bind runs: a fixed shell invocation around the
/// application name.
pub open spec fn spec_open_app_script(platform: Platform, name: Seq<u8>) -> Seq<u8> {
    match platform {
        Platform::MacOs => seq![
            'o' as u8, 'p' as u8, 'e' as u8, 'n' as u8, ' ' as u8, '-' as u8, 'a' as u8,
            ' ' as u8, '"' as u8,
        ] + name + seq!['"' as u8],
        Platform::Linux => name,
        Platform::Windows => seq![
            's' as u8, 't' as u8, 'a' as u8, 'r' as u8, 't' as u8, ' ' as u8, '"' as u8,
            '"' as u8, ' ' as u8, '"' as u8,
        ] + name + seq!['"' as u8],
    }
}

/// The compiled binds of one source bind.
pub open spec fn spec_lower_bind(
    b: ast::Bind,
    names: Seq<Seq<u8>>,
    platform: Platform,
) -> Seq<BindV> {
    match b {
        ast::Bind::Key(k) => match k.value {
            ast::Key::Unspecified(s) => seq![
                BindV::PressKey(s.value),
                BindV::ReleaseKey(s.value),
            ],
            ast::Key::Down(s) => seq![BindV::PressKey(s.value)],
            ast::Key::Up(s) => seq![BindV::ReleaseKey(s.value)],
        },
        ast::Bind::NoOp => Seq::empty(),
        ast::Bind::ChangeLayer(nm) => match spec_find_layer(names, nm.value@) {
            Some(i) => seq![BindV::SwitchLayer(i)],
            None => Seq::empty(),
        },
        ast::Bind::Run { interpreter, script } => seq![
            BindV::RunScript(interpreter.value@, script.value@),
        ],
        ast::Bind::OpenApp(nm) => seq![
            BindV::RunScript(
                spec_open_app_interpreter(platform),
                spec_open_app_script(platform, nm.value@),
            ),
        ],
    }
}

/// The compiled binds of a bind list, concatenated in order.
pub open spec fn spec_lower_binds(
    bs: Seq<ast::Bind>,
    names: Seq<Seq<u8>>,
    platform: Platform,
) -> Seq<BindV>
    decreases bs.len(),
{
    if bs.len() == 0 {
        Seq::empty()
    } else {
        spec_lower_bind(bs.first(), names, platform) + spec_lower_binds(
            bs.drop_first(),
            names,
            platform,
        )
    }
}

/// The bind values of a statement's right side.
pub open spec fn spec_rhs_binds(s: ast::Statement) -> Seq<ast::Bind> {
    s.rhs@.map_values(|b: Spanned<ast::Bind>| b.value)
}

/// Whether a statement is the key-swap special case: one unmarked key
/// remapped to exactly one unmarked key, with no layer, script or timing.
pub open spec fn spec_is_key_swap(s: ast::Statement) -> bool {
    &&& s.lhs.value matches ast::Trigger::Key(tk)
    &&& s.rhs@.len() == 1
    &&& s.rhs@[0].value matches ast::Bind::Key(bk)
    &&& (match (s.lhs.value, s.rhs@[0].value) {
        (ast::Trigger::Key(tk), ast::Bind::Key(bk)) => tk.value matches ast::Key::Unspecified(_)
            && bk.value matches ast::Key::Unspecified(_),
        _ => false,
    })
}

/// The key values of a spanned key-identifier list.
pub open spec fn spec_key_values(keys: Seq<Spanned<KeyIdent>>) -> Seq<KeyIdent> {
    keys.map_values(|k: Spanned<KeyIdent>| k.value)
}

/// The key values of a spanned marked-key list.
pub open spec fn spec_marked_key_values(keys: Seq<Spanned<ast::Key>>) -> Seq<ast::Key> {
    keys.map_values(|k: Spanned<ast::Key>| k.value)
}

/// The remapping records one statement lowers to.
pub open spec fn spec_lower_statement(
    s: ast::Statement,
    cfg: ConfigDataModel,
    names: Seq<Seq<u8>>,
    platform: Platform,
) -> Seq<RemappingV> {
    match s.lhs.value {
        ast::Trigger::Key(tk) => if spec_is_key_swap(s) {
            spec_key_swap_remaps(s)
        } else {
            let binds = spec_lower_binds(spec_rhs_binds(s), names, platform);
            match tk.value {
                ast::Key::Unspecified(k) => seq![
                    RemappingV::Basic { trigger: BasicTriggerV::KeyPress(k.value), binds: binds },
                    RemappingV::Basic {
                        trigger: BasicTriggerV::KeyRelease(k.value),
                        binds: Seq::empty(),
                    },
                ],
                ast::Key::Down(k) => seq![
                    RemappingV::Basic { trigger: BasicTriggerV::KeyPress(k.value), binds: binds },
                ],
                ast::Key::Up(k) => seq![
                    RemappingV::Basic { trigger: BasicTriggerV::KeyRelease(k.value), binds: binds },
                ],
            }
        },
        ast::Trigger::AppFocused(nm) => seq![
            RemappingV::Basic {
                trigger: BasicTriggerV::AppFocused(nm.value@),
                binds: spec_lower_binds(spec_rhs_binds(s), names, platform),
            },
        ],
        ast::Trigger::Tap(key, behavior, timeout) => seq![
            RemappingV::Sequence {
                triggers: seq![
                    AdvancedTrigger::KeyPress { value: key.value },
                    AdvancedTrigger::MaximumWait {
                        duration: spec_resolved_timeout(timeout, cfg.tap_timeout),
                    },
                    AdvancedTrigger::KeyRelease { value: key.value },
                ],
                binds: spec_lower_binds(spec_rhs_binds(s), names, platform),
                behavior: spec_resolved_behavior(behavior, cfg),
            },
        ],
        ast::Trigger::Hold(key, behavior, timeout) => seq![
            RemappingV::Sequence {
                triggers: seq![
                    AdvancedTrigger::KeyPress { value: key.value },
                    AdvancedTrigger::MinimumWait {
                        duration: spec_resolved_timeout(timeout, cfg.hold_time),
                    },
                ],
                binds: spec_lower_binds(spec_rhs_binds(s), names, platform),
                behavior: spec_resolved_behavior(behavior, cfg),
            },
        ],
        ast::Trigger::Chord(keys, behavior, timeout) => seq![
            RemappingV::Sequence {
                triggers: spec_intersperse(
                    spec_press_steps(spec_key_values(keys@)),
                    AdvancedTrigger::MaximumWait {
                        duration: spec_resolved_timeout(timeout, cfg.chord_timeout),
                    },
                ),
                binds: spec_lower_binds(spec_rhs_binds(s), names, platform),
                behavior: spec_resolved_behavior(behavior, cfg),
            },
        ],
        ast::Trigger::Sequence(keys, behavior, timeout) => seq![
            RemappingV::Sequence {
                triggers: spec_sequence_steps(
                    spec_key_values(keys@),
                    AdvancedTrigger::MaximumWait {
                        duration: spec_resolved_timeout(timeout, cfg.sequence_timeout),
                    },
                ),
                binds: spec_lower_binds(spec_rhs_binds(s), names, platform),
                behavior: spec_resolved_behavior(behavior, cfg),
            },
        ],
        ast::Trigger::Combo(keys, behavior, timeout) => seq![
            RemappingV::Sequence {
                triggers: spec_intersperse(
                    spec_combo_steps(spec_marked_key_values(keys@)),
                    AdvancedTrigger::MaximumWait {
                        duration: spec_resolved_timeout(timeout, cfg.combo_timeout),
                    },
                ),
                binds: spec_lower_binds(spec_rhs_binds(s), names, platform),
                behavior: spec_resolved_behavior(behavior, cfg),
            },
        ],
    }
}

impl ast::Behavior {
    /// Lowers a source behavior to its compiled form.
    pub fn compile(self) -> (r: Behavior)
        ensures
            r == spec_behavior(self),
    {
        match self {
            ast::Behavior::Capture => Behavior::Capture,
            ast::Behavior::Release => Behavior::Release,
            ast::Behavior::Wait => Behavior::Default,
        }
    }
}

/// Appending one source bind appends its lowered binds.
proof fn lemma_lower_binds_push(
    s: Seq<ast::Bind>,
    e: ast::Bind,
    names: Seq<Seq<u8>>,
    platform: Platform,
)
    ensures
        spec_lower_binds(s.push(e), names, platform) == spec_lower_binds(s, names, platform)
            + spec_lower_bind(e, names, platform),
    decreases s.len(),
{
    if s.len() == 0 {
        assert(s.push(e).len() == 1);
        assert(s.push(e)[0] == e);
        assert(s.push(e).first() == e);
        assert(s.push(e).drop_first() =~= Seq::<ast::Bind>::empty());
        assert(spec_lower_binds(s.push(e), names, platform) == spec_lower_bind(e, names, platform)
            + spec_lower_binds(s.push(e).drop_first(), names, platform));
        assert(spec_lower_bind(e, names, platform) + Seq::<BindV>::empty() =~= spec_lower_bind(
            e,
            names,
            platform,
        ));
        assert(Seq::<BindV>::empty() + spec_lower_bind(e, names, platform) =~= spec_lower_bind(
            e,
            names,
            platform,
        ));
    } else {
        assert(s.push(e).first() == s.first());
        assert(s.push(e).drop_first() =~= s.drop_first().push(e));
        lemma_lower_binds_push(s.drop_first(), e, names, platform);
        assert(spec_lower_bind(s.first(), names, platform) + (spec_lower_binds(
            s.drop_first(),
            names,
            platform,
        ) + spec_lower_bind(e, names, platform)) =~= (spec_lower_bind(s.first(), names, platform)
            + spec_lower_binds(s.drop_first(), names, platform)) + spec_lower_bind(
            e,
            names,
            platform,
        ));
    }
}

/// Appending one combo key appends its steps.
proof fn lemma_combo_steps_push(s: Seq<ast::Key>, e: ast::Key)
    ensures
        spec_combo_steps(s.push(e)) == spec_combo_steps(s) + spec_combo_piece(e),
    decreases s.len(),
{
    if s.len() == 0 {
        assert(s.push(e).len() == 1);
        assert(s.push(e)[0] == e);
        assert(s.push(e).first() == e);
        assert(s.push(e).drop_first() =~= Seq::<ast::Key>::empty());
        assert(spec_combo_steps(s.push(e)) == spec_combo_piece(e) + spec_combo_steps(
            s.push(e).drop_first(),
        ));
        assert(spec_combo_piece(e) + Seq::<AdvancedTrigger>::empty() =~= spec_combo_piece(e));
        assert(Seq::<AdvancedTrigger>::empty() + spec_combo_piece(e) =~= spec_combo_piece(e));
    } else {
        assert(s.push(e).first() == s.first());
        assert(s.push(e).drop_first() =~= s.drop_first().push(e));
        lemma_combo_steps_push(s.drop_first(), e);
        assert(spec_combo_piece(s.first()) + (spec_combo_steps(s.drop_first()) + spec_combo_piece(
            e,
        )) =~= (spec_combo_piece(s.first()) + spec_combo_steps(s.drop_first())) + spec_combo_piece(
            e,
        ));
    }
}

/// Builds the interspersed step list: a separator between each two steps.
fn intersperse_steps(steps: Vec<AdvancedTrigger>, sep: AdvancedTrigger) -> (r: Vec<
    AdvancedTrigger,
>)
    ensures
        r@ == spec_intersperse(steps@, sep),
{
    let mut r: Vec<AdvancedTrigger> = Vec::new();
    let mut i: usize = 0;
    while i < steps.len()
        invariant
            i <= steps@.len(),
            r@.len() == if i == 0 {
                0int
            } else {
                2 * i - 1
            },
            forall|j: int|
                0 <= j < r@.len() ==> r@[j] == (if j % 2 == 0 {
                    steps@[j / 2]
                } else {
                    sep
                }),
        decreases steps@.len() - i,
    {
        if i > 0 {
            r.push(sep);
        }
        r.push(steps[i]);
        i = i + 1;
    }
    proof {
        assert(r@ =~= spec_intersperse(steps@, sep));
    }
    r
}

/// The bytes of the `sh` interpreter name.
fn sh_bytes() -> (r: Vec<u8>)
    ensures
        r@ == seq!['s' as u8, 'h' as u8],
{
    let mut r: Vec<u8> = Vec::new();
    r.push('s' as u8);
    r.push('h' as u8);
    proof {
        assert(r@ =~= seq!['s' as u8, 'h' as u8]);
    }
    r
}

/// The bytes of the Windows command interpreter name.
fn cmd_exe_bytes() -> (r: Vec<u8>)
    ensures
        r@ == seq!['c' as u8, 'm' as u8, 'd' as u8, '.' as u8, 'e' as u8, 'x' as u8, 'e' as u8],
{
    let mut r: Vec<u8> = Vec::new();
    r.push('c' as u8);
    r.push('m' as u8);
    r.push('d' as u8);
    r.push('.' as u8);
    r.push('e' as u8);
    r.push('x' as u8);
    r.push('e' as u8);
    proof {
        assert(r@ =~= seq![
            'c' as u8, 'm' as u8, 'd' as u8, '.' as u8, 'e' as u8, 'x' as u8, 'e' as u8,
        ]);
    }
    r
}

/// The fixed shell invocation that opens an application on the platform.
fn open_app_script(platform: Platform, name: &Vec<u8>) -> (r: Vec<u8>)
    ensures
        r@ == spec_open_app_script(platform, name@),
{
    match platform {
        Platform::MacOs => {
            let mut r: Vec<u8> = Vec::new();
            r.push('o' as u8);
            r.push('p' as u8);
            r.push('e' as u8);
            r.push('n' as u8);
            r.push(' ' as u8);
            r.push('-' as u8);
            r.push('a' as u8);
            r.push(' ' as u8);
            r.push('"' as u8);
            let ghost prefix = r@;
            crate::diag::msg_append(&mut r, name);
            r.push('"' as u8);
            proof {
                assert(prefix =~= seq![
                    'o' as u8, 'p' as u8, 'e' as u8, 'n' as u8, ' ' as u8, '-' as u8, 'a' as u8,
                    ' ' as u8, '"' as u8,
                ]);
                assert(r@ =~= spec_open_app_script(platform, name@));
            }
            r
        },
        Platform::Linux => crate::utils::copy_bytes(name),
        Platform::Windows => {
            let mut r: Vec<u8> = Vec::new();
            r.push('s' as u8);
            r.push('t' as u8);
            r.push('a' as u8);
            r.push('r' as u8);
            r.push('t' as u8);
            r.push(' ' as u8);
            r.push('"' as u8);
            r.push('"' as u8);
            r.push(' ' as u8);
            r.push('"' as u8);
            let ghost prefix = r@;
            crate::diag::msg_append(&mut r, name);
            r.push('"' as u8);
            proof {
                assert(prefix =~= seq![
                    's' as u8, 't' as u8, 'a' as u8, 'r' as u8, 't' as u8, ' ' as u8, '"' as u8,
                    '"' as u8, ' ' as u8, '"' as u8,
                ]);
                assert(r@ =~= spec_open_app_script(platform, name@));
            }
            r
        },
    }
}

impl ast::Bind {
    /// Lowers a statement's binds: key halves, layer switches by index,
    /// scripts verbatim, and `open_app` as a platform shell invocation.
    #[verifier::loop_isolation(false)]
    pub fn compile(
        binds: &Vec<Spanned<ast::Bind>>,
        layers: &Vec<Spanned<ast::Layer>>,
        platform: Platform,
    ) -> (r: Vec<Bind>)
        requires
            forall|j: int|
                0 <= j < binds@.len() ==> crate::check::bind_resolves(
                    crate::check::layer_names_of(layers@),
                    (#[trigger] binds@[j]).value,
                ),
        ensures
            binds_view(r@) == spec_lower_binds(
                binds@.map_values(|b: Spanned<ast::Bind>| b.value),
                crate::check::layer_names_of(layers@),
                platform,
            ),
    {
        let ghost names = crate::check::layer_names_of(layers@);
        let ghost values = binds@.map_values(|b: Spanned<ast::Bind>| b.value);
        let num_layers: usize = layers.len();
        proof {
            assert(names.len() == num_layers as int);
        }
        let mut result_binds: Vec<Bind> = Vec::new();
        let mut i: usize = 0;
        proof {
            assert(binds_view(result_binds@) =~= spec_lower_binds(
                values.take(0int),
                names,
                platform,
            ));
        }
        while i < binds.len()
            invariant
                i <= binds@.len(),
                binds_view(result_binds@) == spec_lower_binds(values.take(i as int), names, platform),
            decreases binds@.len() - i,
        {
            let ghost res_pre = result_binds@;
            let ghost addv = spec_lower_bind(binds@[i as int].value, names, platform);
            match &binds[i].value {
                ast::Bind::Key(key) => {
                    match key.value {
                        ast::Key::Unspecified(key_ident) => {
                            result_binds.push(Bind::PressKey { value: key_ident.value });
                            result_binds.push(Bind::ReleaseKey { value: key_ident.value });
                            proof {
                                assert(addv =~= seq![
                                    BindV::PressKey(key_ident.value),
                                    BindV::ReleaseKey(key_ident.value),
                                ]);
                                assert(binds_view(result_binds@) =~= binds_view(res_pre) + addv);
                            }
                        },
                        ast::Key::Down(key_ident) => {
                            result_binds.push(Bind::PressKey { value: key_ident.value });
                            proof {
                                assert(addv =~= seq![BindV::PressKey(key_ident.value)]);
                                assert(binds_view(result_binds@) =~= binds_view(res_pre) + addv);
                            }
                        },
                        ast::Key::Up(key_ident) => {
                            result_binds.push(Bind::ReleaseKey { value: key_ident.value });
                            proof {
                                assert(addv =~= seq![BindV::ReleaseKey(key_ident.value)]);
                                assert(binds_view(result_binds@) =~= binds_view(res_pre) + addv);
                            }
                        },
                    }
                },
                ast::Bind::NoOp => {
                    proof {
                        assert(addv =~= Seq::<BindV>::empty());
                        assert(binds_view(result_binds@) =~= binds_view(res_pre) + addv);
                    }
                },
                ast::Bind::ChangeLayer(layer_name) => {
                    match resolve_layer_name(layers, &layer_name.value) {
                        Some(idx) => {
                            proof {
                                lemma_find_layer_props(names, layer_name.value@);
                                assert(spec_find_layer(names, layer_name.value@) == Some(
                                    idx as int,
                                ));
                            }
                            result_binds.push(Bind::SwitchLayer { value: idx });
                            proof {
                                assert(addv =~= seq![BindV::SwitchLayer(idx as int)]);
                                assert(binds_view(result_binds@) =~= binds_view(res_pre) + addv);
                            }
                        },
                        None => {
                            proof {
                                lemma_find_layer_props(names, layer_name.value@);
                                assert(crate::check::bind_resolves(names, binds@[i as int].value));
                                assert(false);
                            }
                        },
                    }
                },
                ast::Bind::Run { interpreter, script } => {
                    let b = Bind::RunScript {
                        interpreter: crate::utils::copy_bytes(&interpreter.value),
                        script: crate::utils::copy_bytes(&script.value),
                    };
                    proof {
                        assert(addv =~= seq![bind_view(b)]);
                    }
                    result_binds.push(b);
                    proof {
                        assert(binds_view(result_binds@) =~= binds_view(res_pre) + addv);
                    }
                },
                ast::Bind::OpenApp(nm) => {
                    let interpreter = match platform {
                        Platform::Windows => cmd_exe_bytes(),
                        _ => sh_bytes(),
                    };
                    let script = open_app_script(platform, &nm.value);
                    let b = Bind::RunScript { interpreter, script };
                    proof {
                        assert(addv =~= seq![bind_view(b)]);
                    }
                    result_binds.push(b);
                    proof {
                        assert(binds_view(result_binds@) =~= binds_view(res_pre) + addv);
                    }
                },
            }
            i = i + 1;
            proof {
                assert(values.take(i as int) =~= values.take(i - 1).push(values[i - 1]));
                lemma_lower_binds_push(values.take(i - 1), values[i - 1], names, platform);
                assert(values[i - 1] == binds@[i - 1].value);
                assert(binds_view(result_binds@) =~= spec_lower_binds(
                    values.take(i as int),
                    names,
                    platform,
                ));
            }
        }
        proof {
            assert(values.take(values.len() as int) =~= values);
        }
        result_binds
    }
}

/// The two direct remappings of a key-swap statement: press to press,
/// release to release, with no timing wrapper.
pub open spec fn spec_key_swap_remaps(s: ast::Statement) -> Seq<RemappingV> {
    let tki = (match s.lhs.value {
        ast::Trigger::Key(t) => match t.value {
            ast::Key::Unspecified(x) => x.value,
            ast::Key::Down(x) => x.value,
            ast::Key::Up(x) => x.value,
        },
        _ => arbitrary(),
    });
    let bki = (match s.rhs@[0].value {
        ast::Bind::Key(b) => match b.value {
            ast::Key::Unspecified(x) => x.value,
            ast::Key::Down(x) => x.value,
            ast::Key::Up(x) => x.value,
        },
        _ => arbitrary(),
    });
    seq![
        RemappingV::Basic {
            trigger: BasicTriggerV::KeyPress(tki),
            binds: seq![BindV::PressKey(bki)],
        },
        RemappingV::Basic {
            trigger: BasicTriggerV::KeyRelease(tki),
            binds: seq![BindV::ReleaseKey(bki)],
        },
    ]
}

/// Builds one press step per chord key.
fn press_steps(keys: &Vec<Spanned<KeyIdent>>) -> (r: Vec<AdvancedTrigger>)
    ensures
        r@ == spec_press_steps(spec_key_values(keys@)),
{
    let mut r: Vec<AdvancedTrigger> = Vec::new();
    let mut i: usize = 0;
    while i < keys.len()
        invariant
            i <= keys@.len(),
            r@.len() == i,
            forall|j: int|
                0 <= j < i ==> r@[j] == (AdvancedTrigger::KeyPress { value: keys@[j].value }),
        decreases keys@.len() - i,
    {
        r.push(AdvancedTrigger::KeyPress { value: keys[i].value });
        i = i + 1;
    }
    proof {
        assert(r@ =~= spec_press_steps(spec_key_values(keys@)));
    }
    r
}

/// Builds press-then-release steps, one pair per sequence key, a wait
/// between consecutive pairs.
fn sequence_steps(keys: &Vec<Spanned<KeyIdent>>, wait: AdvancedTrigger) -> (r: Vec<
    AdvancedTrigger,
>)
    ensures
        r@ == spec_sequence_steps(spec_key_values(keys@), wait),
{
    let mut r: Vec<AdvancedTrigger> = Vec::new();
    let mut i: usize = 0;
    while i < keys.len()
        invariant
            i <= keys@.len(),
            r@.len() == if i == 0 {
                0int
            } else {
                3 * i - 1
            },
            forall|j: int|
                0 <= j < r@.len() ==> r@[j] == (if j % 3 == 0 {
                    AdvancedTrigger::KeyPress { value: keys@[j / 3].value }
                } else if j % 3 == 1 {
                    AdvancedTrigger::KeyRelease { value: keys@[j / 3].value }
                } else {
                    wait
                }),
        decreases keys@.len() - i,
    {
        if i > 0 {
            r.push(wait);
        }
        r.push(AdvancedTrigger::KeyPress { value: keys[i].value });
        r.push(AdvancedTrigger::KeyRelease { value: keys[i].value });
        i = i + 1;
    }
    proof {
        assert(r@ =~= spec_sequence_steps(spec_key_values(keys@), wait));
    }
    r
}

/// Builds the concatenated steps of every combo key.
#[verifier::loop_isolation(false)]
fn combo_steps(keys: &Vec<Spanned<ast::Key>>) -> (r: Vec<AdvancedTrigger>)
    ensures
        r@ == spec_combo_steps(spec_marked_key_values(keys@)),
{
    let ghost values = spec_marked_key_values(keys@);
    let mut r: Vec<AdvancedTrigger> = Vec::new();
    let mut i: usize = 0;
    proof {
        assert(r@ =~= spec_combo_steps(values.take(0int)));
    }
    while i < keys.len()
        invariant
            i <= keys@.len(),
            r@ == spec_combo_steps(values.take(i as int)),
        decreases keys@.len() - i,
    {
        let ghost r_pre = r@;
        match keys[i].value {
            ast::Key::Unspecified(key) => {
                r.push(AdvancedTrigger::KeyPress { value: key.value });
                r.push(AdvancedTrigger::KeyRelease { value: key.value });
            },
            ast::Key::Down(key) => {
                r.push(AdvancedTrigger::KeyPress { value: key.value });
            },
            ast::Key::Up(key) => {
                r.push(AdvancedTrigger::KeyRelease { value: key.value });
            },
        }
        i = i + 1;
        proof {
            assert(values.take(i as int) =~= values.take(i - 1).push(values[i - 1]));
            lemma_combo_steps_push(values.take(i - 1), values[i - 1]);
            assert(values[i - 1] == keys@[i - 1].value);
            assert(r@ =~= r_pre + spec_combo_piece(values[i - 1]));
        }
    }
    proof {
        assert(values.take(values.len() as int) =~= values);
    }
    r
}

impl ast::Statement {
    /// Detects the key-swap special case: one unmarked key remapped to a
    /// single unmarked key, lowered to a direct press/release pair.
    pub fn try_key_swap(statement: &Spanned<ast::Statement>) -> (r: Option<Vec<Remapping>>)
        ensures
            match r {
                Some(v) => spec_is_key_swap(statement.value) && remappings_view(v@)
                    == spec_key_swap_remaps(statement.value),
                None => !spec_is_key_swap(statement.value),
            },
    {
        match &statement.value.lhs.value {
            ast::Trigger::Key(trigger_key) => {
                if statement.value.rhs.len() == 1 {
                    match &statement.value.rhs[0].value {
                        ast::Bind::Key(bind_key) => {
                            let tk = trigger_key.value.is_basic_key();
                            let bk = bind_key.value.is_basic_key();
                            match (tk, bk) {
                                (Some(tki), Some(bki)) => {
                                    let mut v: Vec<Remapping> = Vec::new();
                                    let mut b1: Vec<Bind> = Vec::new();
                                    b1.push(Bind::PressKey { value: bki });
                                    v.push(Remapping::Basic(BasicRemapping {
                                        trigger: BasicTrigger::KeyPress { value: tki },
                                        binds: b1,
                                    }));
                                    let mut b2: Vec<Bind> = Vec::new();
                                    b2.push(Bind::ReleaseKey { value: bki });
                                    v.push(Remapping::Basic(BasicRemapping {
                                        trigger: BasicTrigger::KeyRelease { value: tki },
                                        binds: b2,
                                    }));
                                    proof {
                                        assert(remappings_view(v@) =~~= spec_key_swap_remaps(
                                            statement.value,
                                        ));
                                    }
                                    Some(v)
                                },
                                _ => None,
                            }
                        },
                        _ => None,
                    }
                } else {
                    None
                }
            },
            _ => None,
        }
    }

    /// Lowers one statement into its compiled remapping records, with every
    /// unspecified timeout or behavior filled from the resolved
    /// configuration.
    pub fn compile(
        statement: &Spanned<ast::Statement>,
        config: &ConfigData,
        layers: &Vec<Spanned<ast::Layer>>,
        platform: Platform,
    ) -> (r: Vec<Remapping>)
        requires
            crate::check::stmt_resolves(
                crate::check::layer_names_of(layers@),
                statement.value,
            ),
        ensures
            remappings_view(r@) == spec_lower_statement(
                statement.value,
                config.model(),
                crate::check::layer_names_of(layers@),
                platform,
            ),
    {
        let ghost names = crate::check::layer_names_of(layers@);
        match ast::Statement::try_key_swap(statement) {
            Some(result) => {
                return result;
            },
            None => (),
        }
        let binds = ast::Bind::compile(&statement.value.rhs, layers, platform);
        proof {
            assert(statement.value.rhs@.map_values(|b: Spanned<ast::Bind>| b.value)
                =~= spec_rhs_binds(statement.value));
        }
        match &statement.value.lhs.value {
            ast::Trigger::Key(trigger_key) => {
                match trigger_key.value {
                    ast::Key::Unspecified(key) => {
                        let mut v: Vec<Remapping> = Vec::new();
                        v.push(Remapping::Basic(BasicRemapping {
                            trigger: BasicTrigger::KeyPress { value: key.value },
                            binds,
                        }));
                        v.push(Remapping::Basic(BasicRemapping {
                            trigger: BasicTrigger::KeyRelease { value: key.value },
                            binds: Vec::new(),
                        }));
                        proof {
                            assert(binds_view(Seq::<Bind>::empty()) =~= Seq::<BindV>::empty());
                            assert(remappings_view(v@) =~~= spec_lower_statement(
                                statement.value,
                                config.model(),
                                names,
                                platform,
                            ));
                        }
                        v
                    },
                    ast::Key::Down(key) => {
                        let mut v: Vec<Remapping> = Vec::new();
                        v.push(Remapping::Basic(BasicRemapping {
                            trigger: BasicTrigger::KeyPress { value: key.value },
                            binds,
                        }));
                        proof {
                            assert(remappings_view(v@) =~~= spec_lower_statement(
                                statement.value,
                                config.model(),
                                names,
                                platform,
                            ));
                        }
                        v
                    },
                    ast::Key::Up(key) => {
                        let mut v: Vec<Remapping> = Vec::new();
                        v.push(Remapping::Basic(BasicRemapping {
                            trigger: BasicTrigger::KeyRelease { value: key.value },
                            binds,
                        }));
                        proof {
                            assert(remappings_view(v@) =~~= spec_lower_statement(
                                statement.value,
                                config.model(),
                                names,
                                platform,
                            ));
                        }
                        v
                    },
                }
            },
            ast::Trigger::AppFocused(app_name) => {
                let mut v: Vec<Remapping> = Vec::new();
                v.push(Remapping::Basic(BasicRemapping {
                    trigger: BasicTrigger::AppFocused {
                        app_name: crate::utils::copy_bytes(&app_name.value),
                    },
                    binds,
                }));
                proof {
                    assert(remappings_view(v@) =~~= spec_lower_statement(
                        statement.value,
                        config.model(),
                        names,
                        platform,
                    ));
                }
                v
            },
            ast::Trigger::Tap(key, behavior, timeout) => {
                let duration = match timeout {
                    Some(t) => t.value,
                    None => config.tap_timeout,
                };
                let resolved = match behavior {
                    Some(b) => b.value,
                    None => config.default_behavior,
                };
                let mut triggers: Vec<AdvancedTrigger> = Vec::new();
                triggers.push(AdvancedTrigger::KeyPress { value: key.value });
                triggers.push(AdvancedTrigger::MaximumWait { duration });
                triggers.push(AdvancedTrigger::KeyRelease { value: key.value });
                let mut v: Vec<Remapping> = Vec::new();
                v.push(Remapping::Sequence(SequenceRemapping {
                    triggers,
                    binds,
                    behavior: resolved.compile(),
                }));
                proof {
                    assert(remappings_view(v@) =~~= spec_lower_statement(
                        statement.value,
                        config.model(),
                        names,
                        platform,
                    ));
                }
                v
            },
            ast::Trigger::Hold(key, behavior, timeout) => {
                let duration = match timeout {
                    Some(t) => t.value,
                    None => config.hold_time,
                };
                let resolved = match behavior {
                    Some(b) => b.value,
                    None => config.default_behavior,
                };
                let mut triggers: Vec<AdvancedTrigger> = Vec::new();
                triggers.push(AdvancedTrigger::KeyPress { value: key.value });
                triggers.push(AdvancedTrigger::MinimumWait { duration });
                let mut v: Vec<Remapping> = Vec::new();
                v.push(Remapping::Sequence(SequenceRemapping {
                    triggers,
                    binds,
                    behavior: resolved.compile(),
                }));
                proof {
                    assert(remappings_view(v@) =~~= spec_lower_statement(
                        statement.value,
                        config.model(),
                        names,
                        platform,
                    ));
                }
                v
            },
            ast::Trigger::Chord(keys, behavior, timeout) => {
                let duration = match timeout {
                    Some(t) => t.value,
                    None => config.chord_timeout,
                };
                let resolved = match behavior {
                    Some(b) => b.value,
                    None => config.default_behavior,
                };
                let triggers = intersperse_steps(
                    press_steps(keys),
                    AdvancedTrigger::MaximumWait { duration },
                );
                let mut v: Vec<Remapping> = Vec::new();
                v.push(Remapping::Sequence(SequenceRemapping {
                    triggers,
                    binds,
                    behavior: resolved.compile(),
                }));
                proof {
                    assert(remappings_view(v@) =~~= spec_lower_statement(
                        statement.value,
                        config.model(),
                        names,
                        platform,
                    ));
                }
                v
            },
            ast::Trigger::Sequence(keys, behavior, timeout) => {
                let duration = match timeout {
                    Some(t) => t.value,
                    None => config.sequence_timeout,
                };
                let resolved = match behavior {
                    Some(b) => b.value,
                    None => config.default_behavior,
                };
                let triggers = sequence_steps(keys, AdvancedTrigger::MaximumWait { duration });
                let mut v: Vec<Remapping> = Vec::new();
                v.push(Remapping::Sequence(SequenceRemapping {
                    triggers,
                    binds,
                    behavior: resolved.compile(),
                }));
                proof {
                    assert(remappings_view(v@) =~~= spec_lower_statement(
                        statement.value,
                        config.model(),
                        names,
                        platform,
                    ));
                }
                v
            },
            ast::Trigger::Combo(keys, behavior, timeout) => {
                let duration = match timeout {
                    Some(t) => t.value,
                    None => config.combo_timeout,
                };
                let resolved = match behavior {
                    Some(b) => b.value,
                    None => config.default_behavior,
                };
                let triggers = intersperse_steps(
                    combo_steps(keys),
                    AdvancedTrigger::MaximumWait { duration },
                );
                let mut v: Vec<Remapping> = Vec::new();
                v.push(Remapping::Sequence(SequenceRemapping {
                    triggers,
                    binds,
                    behavior: resolved.compile(),
                }));
                proof {
                    assert(remappings_view(v@) =~~= spec_lower_statement(
                        statement.value,
                        config.model(),
                        names,
                        platform,
                    ));
                }
                v
            },
        }
    }
}

// --- Conflict detection: the sequence trie ------------------------------

/// One node of the per-layer trigger trie: the step that reaches it, the
/// behavior and statement span recorded when it was created, and its
/// children. The node owns its children outright.
pub struct SequenceTrie {
    pub step: AdvancedTrigger,
    pub next: Vec<SequenceTrie>,
    pub behavior: Behavior,
    pub span: Span,
}

/// The model of a trie node.
#[verifier::ext_equal]
pub struct TrieV {
    pub step: AdvancedTrigger,
    pub behavior: Behavior,
    pub span: Span,
    pub next: Seq<TrieV>,
}

/// The model of a trie node, children modeled recursively.
pub open spec fn trie_view(t: SequenceTrie) -> TrieV
    decreases t,
{
    TrieV { step: t.step, behavior: t.behavior, span: t.span, next: tries_view(t.next@) }
}

/// The models of a list of sibling trie nodes.
pub open spec fn tries_view(s: Seq<SequenceTrie>) -> Seq<TrieV>
    decreases s,
{
    if s.len() == 0 {
        Seq::empty()
    } else {
        seq![trie_view(s.first())] + tries_view(s.drop_first())
    }
}

/// The node models line up with the nodes, index by index.
pub proof fn lemma_tries_view_index(s: Seq<SequenceTrie>)
    ensures
        tries_view(s).len() == s.len(),
        forall|i: int| 0 <= i < s.len() ==> tries_view(s)[i] == trie_view(#[trigger] s[i]),
    decreases s.len(),
{
    if s.len() > 0 {
        lemma_tries_view_index(s.drop_first());
        assert forall|i: int| 0 <= i < s.len() implies tries_view(s)[i] == trie_view(s[i]) by {
            if i > 0 {
                assert(tries_view(s)[i] == tries_view(s.drop_first())[i - 1]);
                assert(s.drop_first()[i - 1] == s[i]);
            }
        }
    }
}

/// The first child along the given step, if one exists.
pub open spec fn find_edge(edges: Seq<TrieV>, step: AdvancedTrigger) -> Option<int>
    decreases edges.len(),
{
    if edges.len() == 0 {
        None
    } else if edges.first().step == step {
        Some(0)
    } else {
        match find_edge(edges.drop_first(), step) {
            Some(j) => Some(j + 1),
            None => None,
        }
    }
}

/// What `find_edge` finds is the first matching child; nothing is found
/// exactly when no child matches.
pub proof fn lemma_find_edge_props(edges: Seq<TrieV>, step: AdvancedTrigger)
    ensures
        match find_edge(edges, step) {
            Some(j) => 0 <= j < edges.len() && edges[j].step == step && (forall|k: int|
                0 <= k < j ==> edges[k].step != step),
            None => forall|k: int| 0 <= k < edges.len() ==> edges[k].step != step,
        },
    decreases edges.len(),
{
    if edges.len() > 0 && edges.first().step != step {
        lemma_find_edge_props(edges.drop_first(), step);
        match find_edge(edges.drop_first(), step) {
            Some(j) => {
                assert(edges[j + 1] == edges.drop_first()[j]);
                assert(forall|k: int| 1 <= k < j + 1 ==> edges[k] == edges.drop_first()[k - 1]);
            },
            None => {
                assert(forall|k: int| 1 <= k < edges.len() ==> edges[k] == edges.drop_first()[k
                    - 1]);
            },
        }
    }
}

/// A fresh chain of nodes for the remaining steps, each carrying the new
/// statement's behavior and span.
pub open spec fn spec_fresh_node(
    steps: Seq<AdvancedTrigger>,
    i: int,
    behavior: Behavior,
    span: Span,
) -> TrieV
    decreases steps.len() - i,
{
    TrieV {
        step: steps[i],
        behavior,
        span,
        next: if i + 1 < steps.len() {
            seq![spec_fresh_node(steps, i + 1, behavior, span)]
        } else {
            Seq::empty()
        },
    }
}

/// Walking and extending the trie with the steps from `i` on: `None` is a
/// conflict. At a shared node the behaviors must agree; an existing node at
/// the last step is a duplicate or prefix of an earlier sequence; an
/// existing leaf before the last step is an earlier sequence this one would
/// extend past. A missing child starts a fresh chain, which can no longer
/// conflict.
pub open spec fn spec_insert_steps(
    edges: Seq<TrieV>,
    steps: Seq<AdvancedTrigger>,
    i: int,
    behavior: Behavior,
    span: Span,
) -> Option<Seq<TrieV>>
    decreases steps.len() - i,
{
    if i >= steps.len() {
        Some(edges)
    } else {
        match find_edge(edges, steps[i]) {
            Some(j) => {
                let node = edges[j];
                if node.behavior != behavior {
                    None
                } else if i == steps.len() - 1 {
                    None
                } else if node.next.len() == 0 {
                    None
                } else {
                    match spec_insert_steps(node.next, steps, i + 1, behavior, span) {
                        Some(nn) => Some(
                            edges.update(j, TrieV { next: nn, ..node }),
                        ),
                        None => None,
                    }
                }
            },
            None => Some(edges.push(spec_fresh_node(steps, i, behavior, span))),
        }
    }
}

/// Builds the fresh chain of trie nodes for the steps from `i` on.
fn build_fresh_chain(
    steps: &Vec<AdvancedTrigger>,
    i: usize,
    behavior: Behavior,
    span: Span,
) -> (node: SequenceTrie)
    requires
        i < steps@.len(),
    ensures
        trie_view(node) == spec_fresh_node(steps@, i as int, behavior, span),
    decreases steps@.len() - i,
{
    let n = steps.len();
    let next: Vec<SequenceTrie> = if i + 1 < n {
        let child = build_fresh_chain(steps, i + 1, behavior, span);
        let mut v: Vec<SequenceTrie> = Vec::new();
        v.push(child);
        v
    } else {
        Vec::new()
    };
    let node = SequenceTrie { step: steps[i], next, behavior, span };
    proof {
        lemma_tries_view_index(node.next@);
        assert(trie_view(node).next =~= spec_fresh_node(steps@, i as int, behavior, span).next);
        assert(trie_view(node) =~~= spec_fresh_node(steps@, i as int, behavior, span));
    }
    node
}

/// Walks and extends the trie with the steps from `i` on, exactly as
/// [`spec_insert_steps`] describes. On a conflict the trie is unchanged and
/// the span of the conflicting node comes back.
#[verifier::loop_isolation(false)]
fn insert_steps(
    edges: &mut Vec<SequenceTrie>,
    steps: &Vec<AdvancedTrigger>,
    i: usize,
    behavior: Behavior,
    span: Span,
) -> (r: Result<(), Span>)
    requires
        i < steps@.len(),
    ensures
        match spec_insert_steps(tries_view(old(edges)@), steps@, i as int, behavior, span) {
            Some(nn) => r is Ok && tries_view(final(edges)@) == nn,
            None => r is Err && tries_view(final(edges)@) == tries_view(old(edges)@),
        },
    decreases steps@.len() - i,
{
    let ghost edges0 = tries_view(edges@);
    proof {
        lemma_tries_view_index(edges@);
        lemma_find_edge_props(edges0, steps@[i as int]);
    }
    let step = steps[i];
    let n = edges.len();
    let mut j: usize = 0;
    let mut found = false;
    while j < n
        invariant
            j <= n,
            found ==> j < n && edges0[j as int].step == steps@[i as int],
            forall|k: int| 0 <= k < j ==> edges0[k].step != steps@[i as int],
        decreases n - j,
    {
        if edges[j].step == step {
            proof {
                assert(edges0[j as int].step == trie_view(edges@[j as int]).step);
            }
            found = true;
            break;
        }
        proof {
            assert(edges0[j as int].step == trie_view(edges@[j as int]).step);
        }
        j = j + 1;
    }
    if !found {
        let node = build_fresh_chain(steps, i, behavior, span);
        let ghost pre = edges@;
        edges.push(node);
        proof {
            match find_edge(edges0, steps@[i as int]) {
                Some(jj) => {
                    assert(edges0[jj].step == steps@[i as int]);
                    assert(false);
                },
                None => {},
            }
            assert(find_edge(edges0, steps@[i as int]) is None);
            lemma_tries_view_index(edges@);
            assert(edges@.len() == pre.len() + 1);
            assert(trie_view(edges@[pre.len() as int]) == spec_fresh_node(
                steps@,
                i as int,
                behavior,
                span,
            ));
            assert forall|k: int|
                0 <= k < edges@.len() implies tries_view(edges@)[k] == edges0.push(
                spec_fresh_node(steps@, i as int, behavior, span),
            )[k] by {
                if k < pre.len() {
                    assert(edges@[k] == pre[k]);
                    assert(edges0[k] == trie_view(pre[k]));
                }
            }
            assert(tries_view(edges@) =~= edges0.push(
                spec_fresh_node(steps@, i as int, behavior, span),
            ));
        }
        return Ok(());
    }
    proof {
        assert(edges0[j as int].step == steps@[i as int]);
        match find_edge(edges0, steps@[i as int]) {
            Some(jj) => {
                if jj < j {
                    assert(edges0[jj].step != steps@[i as int]);
                    assert(false);
                }
                if jj > j {
                    assert(edges0[j as int].step != steps@[i as int]);
                    assert(false);
                }
            },
            None => {
                assert(edges0[j as int].step != steps@[i as int]);
                assert(false);
            },
        }
        assert(find_edge(edges0, steps@[i as int]) == Some(j as int));
    }
    let node_behavior = edges[j].behavior;
    let node_span = edges[j].span;
    if node_behavior != behavior {
        return Err(node_span);
    }
    if i == steps.len() - 1 {
        return Err(node_span);
    }
    if edges[j].next.len() == 0 {
        return Err(node_span);
    }
    let mut child = edges.remove(j);
    let ghost after_remove = edges@;
    let ghost child0 = child;
    let r = insert_steps(&mut child.next, steps, i + 1, behavior, span);
    edges.insert(j, child);
    proof {
        assert(edges@ =~= after_remove.insert(j as int, child));
        assert(edges@.len() == old(edges)@.len());
        assert forall|k: int| 0 <= k < edges@.len() && k != j implies edges@[k] == old(
            edges,
        )@[k] by {
            if k < j {
                assert(after_remove[k] == old(edges)@[k]);
            } else {
                assert(after_remove[k - 1] == old(edges)@[k]);
            }
        }
        assert(edges@[j as int] == child);
        assert(child.step == child0.step && child.behavior == child0.behavior && child.span
            == child0.span);
        lemma_tries_view_index(old(edges)@);
        lemma_tries_view_index(edges@);
        assert(child0 == old(edges)@[j as int]);
        assert(edges0[j as int] == trie_view(child0));
        assert(trie_view(child0).next == tries_view(child0.next@));
        assert(trie_view(child).next == tries_view(child.next@));
        match spec_insert_steps(trie_view(child0).next, steps@, i + 1, behavior, span) {
            Some(nn) => {
                assert(tries_view(child.next@) == nn);
                assert(trie_view(child) =~~= TrieV { next: nn, ..edges0[j as int] });
                assert(trie_view(child) == TrieV { next: nn, ..edges0[j as int] });
                assert forall|k: int|
                    0 <= k < edges@.len() implies tries_view(edges@)[k] == edges0.update(
                    j as int,
                    TrieV { next: nn, ..edges0[j as int] },
                )[k] by {
                    if k != j {
                        assert(edges@[k] == old(edges)@[k]);
                        assert(edges0[k] == trie_view(old(edges)@[k]));
                    }
                }
                assert(tries_view(edges@) =~= edges0.update(
                    j as int,
                    TrieV { next: nn, ..edges0[j as int] },
                ));
            },
            None => {
                assert(tries_view(child.next@) == tries_view(child0.next@));
                assert(trie_view(child) =~~= trie_view(child0));
                assert forall|k: int|
                    0 <= k < edges@.len() implies tries_view(edges@)[k] == tries_view(
                    old(edges)@,
                )[k] by {
                    if k != j {
                        assert(edges@[k] == old(edges)@[k]);
                    }
                }
                assert(tries_view(edges@) =~= tries_view(old(edges)@));
            },
        }
    }
    r
}

// --- Per-layer conflict state -------------------------------------------

/// Whether a step is an observable key event (timing markers are not).
pub open spec fn is_key_event(t: AdvancedTrigger) -> bool {
    match t {
        AdvancedTrigger::KeyPress { .. } => true,
        AdvancedTrigger::KeyRelease { .. } => true,
        _ => false,
    }
}

/// Only the press/release steps of a trigger path: the trie is keyed by
/// these, timing markers are skipped.
pub open spec fn spec_key_steps(ts: Seq<AdvancedTrigger>) -> Seq<AdvancedTrigger> {
    ts.filter(|t: AdvancedTrigger| is_key_event(t))
}

/// Extracts the press/release steps of a trigger path.
#[verifier::loop_isolation(false)]
fn key_steps(ts: &Vec<AdvancedTrigger>) -> (r: Vec<AdvancedTrigger>)
    ensures
        r@ == spec_key_steps(ts@),
{
    let mut r: Vec<AdvancedTrigger> = Vec::new();
    let mut i: usize = 0;
    proof {
        assert(ts@.take(0int).filter(|t: AdvancedTrigger| is_key_event(t)) =~= Seq::<
            AdvancedTrigger,
        >::empty());
    }
    while i < ts.len()
        invariant
            i <= ts@.len(),
            r@ == ts@.take(i as int).filter(|t: AdvancedTrigger| is_key_event(t)),
        decreases ts@.len() - i,
    {
        proof {
            assert(ts@.take(i + 1).drop_last() =~= ts@.take(i as int));
            assert(ts@.take(i + 1).last() == ts@[i as int]);
            reveal_with_fuel(Seq::filter, 2);
        }
        let t = ts[i];
        match t {
            AdvancedTrigger::KeyPress { .. } => r.push(t),
            AdvancedTrigger::KeyRelease { .. } => r.push(t),
            _ => (),
        }
        i = i + 1;
    }
    proof {
        assert(ts@.take(ts@.len() as int) =~= ts@);
    }
    r
}

/// The first claimed basic trigger equal to the given one, if any.
pub open spec fn spec_find_basic(
    basics: Seq<(BasicTriggerV, Span)>,
    t: BasicTriggerV,
) -> Option<int>
    decreases basics.len(),
{
    if basics.len() == 0 {
        None
    } else if basics.first().0 == t {
        Some(0)
    } else {
        match spec_find_basic(basics.drop_first(), t) {
            Some(j) => Some(j + 1),
            None => None,
        }
    }
}

/// What `spec_find_basic` finds matches; nothing is found exactly when no
/// claimed trigger matches.
pub proof fn lemma_find_basic_props(basics: Seq<(BasicTriggerV, Span)>, t: BasicTriggerV)
    ensures
        match spec_find_basic(basics, t) {
            Some(j) => 0 <= j < basics.len() && basics[j].0 == t && (forall|k: int|
                0 <= k < j ==> basics[k].0 != t),
            None => forall|k: int| 0 <= k < basics.len() ==> basics[k].0 != t,
        },
    decreases basics.len(),
{
    if basics.len() > 0 && basics.first().0 != t {
        lemma_find_basic_props(basics.drop_first(), t);
        match spec_find_basic(basics.drop_first(), t) {
            Some(j) => {
                assert(basics[j + 1] == basics.drop_first()[j]);
                assert(forall|k: int| 1 <= k < j + 1 ==> basics[k] == basics.drop_first()[k - 1]);
            },
            None => {
                assert(forall|k: int| 1 <= k < basics.len() ==> basics[k] == basics.drop_first()[k
                    - 1]);
            },
        }
    }
}

/// Whether two basic triggers are the same event.
fn basic_trigger_eq(a: &BasicTrigger, b: &BasicTrigger) -> (r: bool)
    ensures
        r == (basic_trigger_view(*a) == basic_trigger_view(*b)),
{
    match (a, b) {
        (BasicTrigger::KeyPress { value: x }, BasicTrigger::KeyPress { value: y }) => x == y,
        (BasicTrigger::KeyRelease { value: x }, BasicTrigger::KeyRelease { value: y }) => x == y,
        (BasicTrigger::AppFocused { app_name: x }, BasicTrigger::AppFocused { app_name: y }) => {
            let r = x == y;
            proof {
                if r {
                    assert(x@ =~= y@);
                }
            }
            r
        },
        _ => false,
    }
}

/// A copy of a basic trigger.
fn clone_basic_trigger(t: &BasicTrigger) -> (r: BasicTrigger)
    ensures
        basic_trigger_view(r) == basic_trigger_view(*t),
{
    match t {
        BasicTrigger::KeyPress { value } => BasicTrigger::KeyPress { value: *value },
        BasicTrigger::KeyRelease { value } => BasicTrigger::KeyRelease { value: *value },
        BasicTrigger::AppFocused { app_name } => BasicTrigger::AppFocused {
            app_name: crate::utils::copy_bytes(app_name),
        },
    }
}

/// The layer-scoped conflict state: which basic trigger each statement
/// first claimed, and the trie over sequence trigger steps.
pub struct LayerCompilationState {
    pub basic_remappings: Vec<(BasicTrigger, Span)>,
    pub sequence_remappings: Vec<SequenceTrie>,
}

/// The model of the claimed basic triggers.
pub open spec fn basics_view(s: Seq<(BasicTrigger, Span)>) -> Seq<(BasicTriggerV, Span)> {
    s.map_values(|p: (BasicTrigger, Span)| (basic_trigger_view(p.0), p.1))
}

/// Inserting one remapping record: a basic remapping claims its trigger,
/// which must be free; a sequence remapping must have at least one key
/// event and walk the trie without conflict.
pub open spec fn spec_insert_remapping(
    basics: Seq<(BasicTriggerV, Span)>,
    roots: Seq<TrieV>,
    r: RemappingV,
    span: Span,
) -> Option<(Seq<(BasicTriggerV, Span)>, Seq<TrieV>)> {
    match r {
        RemappingV::Basic { trigger, binds } => match spec_find_basic(basics, trigger) {
            Some(_) => None,
            None => Some((basics.push((trigger, span)), roots)),
        },
        RemappingV::Sequence { triggers, binds, behavior } => {
            let steps = spec_key_steps(triggers);
            if steps.len() == 0 {
                None
            } else {
                match spec_insert_steps(roots, steps, 0, behavior, span) {
                    Some(nr) => Some((basics, nr)),
                    None => None,
                }
            }
        },
    }
}

/// Inserting a statement's remapping records, one after the other.
pub open spec fn spec_insert_remappings(
    basics: Seq<(BasicTriggerV, Span)>,
    roots: Seq<TrieV>,
    rs: Seq<RemappingV>,
    span: Span,
) -> Option<(Seq<(BasicTriggerV, Span)>, Seq<TrieV>)>
    decreases rs.len(),
{
    if rs.len() == 0 {
        Some((basics, roots))
    } else {
        match spec_insert_remapping(basics, roots, rs.first(), span) {
            Some((b2, r2)) => spec_insert_remappings(b2, r2, rs.drop_first(), span),
            None => None,
        }
    }
}

/// Inserting one more record folds onto the end.
pub proof fn lemma_insert_remappings_push(
    basics: Seq<(BasicTriggerV, Span)>,
    roots: Seq<TrieV>,
    rs: Seq<RemappingV>,
    x: RemappingV,
    span: Span,
)
    ensures
        spec_insert_remappings(basics, roots, rs.push(x), span) == (match spec_insert_remappings(
            basics,
            roots,
            rs,
            span,
        ) {
            Some((b2, r2)) => spec_insert_remapping(b2, r2, x, span),
            None => None,
        }),
    decreases rs.len(),
{
    reveal_with_fuel(spec_insert_remappings, 2);
    if rs.len() == 0 {
        assert(rs.push(x).len() == 1);
        assert(rs.push(x).first() == x);
        assert(rs.push(x).drop_first() =~= Seq::<RemappingV>::empty());
    } else {
        assert(rs.push(x).first() == rs.first());
        assert(rs.push(x).drop_first() =~= rs.drop_first().push(x));
        match spec_insert_remapping(basics, roots, rs.first(), span) {
            Some((b2, r2)) => {
                lemma_insert_remappings_push(b2, r2, rs.drop_first(), x, span);
            },
            None => {},
        }
    }
}

/// Once a prefix of the records conflicts, the whole list conflicts.
pub proof fn lemma_insert_remappings_none_extend(
    basics: Seq<(BasicTriggerV, Span)>,
    roots: Seq<TrieV>,
    rs: Seq<RemappingV>,
    k: int,
    span: Span,
)
    requires
        0 <= k <= rs.len(),
        spec_insert_remappings(basics, roots, rs.take(k), span) is None,
    ensures
        spec_insert_remappings(basics, roots, rs, span) is None,
    decreases rs.len() - k,
{
    if k < rs.len() {
        assert(rs.take(k + 1) =~= rs.take(k).push(rs[k]));
        lemma_insert_remappings_push(basics, roots, rs.take(k), rs[k], span);
        lemma_insert_remappings_none_extend(basics, roots, rs, k + 1, span);
    } else {
        assert(rs.take(k) =~= rs);
    }
}

/// The diagnostic for two statements whose trigger paths collide.
fn conflicting_binds(fst: Span, snd: Span) -> (d: Diagnostic)
    ensures
        d.is_error(),
        d.kind == DiagKind::ConflictingStatements,
        d.sig().spans == seq![fst, snd],
{
    Diagnostic::new2(
        DiagKind::ConflictingStatements,
        Severity::Error,
        msg("Conflicting statements"),
        Vec::new(),
        fst,
        Vec::new(),
        snd,
    )
}

impl LayerCompilationState {
    /// A fresh state with nothing claimed.
    fn new() -> (s: LayerCompilationState)
        ensures
            basics_view(s.basic_remappings@) =~= Seq::<(BasicTriggerV, Span)>::empty(),
            tries_view(s.sequence_remappings@) =~= Seq::<TrieV>::empty(),
    {
        LayerCompilationState { basic_remappings: Vec::new(), sequence_remappings: Vec::new() }
    }

    /// Runs the conflict detector over one statement's remapping records,
    /// claiming their triggers, exactly as [`spec_insert_remappings`]
    /// describes. A conflict or an empty sequence aborts with a spanned
    /// diagnostic.
    #[verifier::loop_isolation(false)]
    fn try_insert_remappings(&mut self, remappings: &Vec<Remapping>, span: Span) -> (r: Result<
        (),
        Diagnostic,
    >)
        ensures
            match r {
                Ok(_) => spec_insert_remappings(
                    basics_view(old(self).basic_remappings@),
                    tries_view(old(self).sequence_remappings@),
                    remappings_view(remappings@),
                    span,
                ) == Some(
                    (
                        basics_view(final(self).basic_remappings@),
                        tries_view(final(self).sequence_remappings@),
                    ),
                ),
                Err(d) => d.is_error() && (d.kind == DiagKind::EmptySequence || d.kind
                    == DiagKind::ConflictingStatements) && (d.kind == DiagKind::EmptySequence
                    ==> d.sig().spans == seq![span]) && (d.kind
                    == DiagKind::ConflictingStatements ==> d.sig().spans.len() == 2
                    && d.sig().spans[1] == span) && spec_insert_remappings(
                    basics_view(old(self).basic_remappings@),
                    tries_view(old(self).sequence_remappings@),
                    remappings_view(remappings@),
                    span,
                ) is None,
            },
            ({
                // A lone sequence remapping with no observable key event is
                // always rejected as an empty sequence, at the statement.
                let rv = remappings_view(remappings@);
                (rv.len() == 1 && (match rv[0] {
                    RemappingV::Sequence { triggers, .. } => spec_key_steps(triggers).len() == 0,
                    _ => false,
                })) ==> (r matches Err(d) && d.kind == DiagKind::EmptySequence && d.sig().spans
                    == seq![span])
            }),
    {
        let ghost b0 = basics_view(old(self).basic_remappings@);
        let ghost r0 = tries_view(old(self).sequence_remappings@);
        let ghost rviews = remappings_view(remappings@);
        let mut i: usize = 0;
        proof {
            assert(rviews.take(0int) =~= Seq::<RemappingV>::empty());
        }
        while i < remappings.len()
            invariant
                i <= remappings@.len(),
                spec_insert_remappings(b0, r0, rviews.take(i as int), span) == Some(
                    (
                        basics_view(self.basic_remappings@),
                        tries_view(self.sequence_remappings@),
                    ),
                ),
            decreases remappings@.len() - i,
        {
            let ghost bpre = basics_view(self.basic_remappings@);
            let ghost rpre = tries_view(self.sequence_remappings@);
            proof {
                assert(rviews.take(i + 1) =~= rviews.take(i as int).push(rviews[i as int]));
                lemma_insert_remappings_push(b0, r0, rviews.take(i as int), rviews[i as int], span);
                assert(rviews[i as int] == remapping_view(remappings@[i as int]));
            }
            match &remappings[i] {
                Remapping::Basic(basic_remapping) => {
                    proof {
                        lemma_find_basic_props(
                            bpre,
                            basic_trigger_view(basic_remapping.trigger),
                        );
                    }
                    let n = self.basic_remappings.len();
                    let mut j: usize = 0;
                    let mut found = false;
                    let mut found_span = Span::new(0, 0);
                    while j < n
                        invariant
                            j <= n,
                            n == self.basic_remappings@.len(),
                            bpre == basics_view(self.basic_remappings@),
                            found ==> j < n && bpre[j as int].0 == basic_trigger_view(
                                basic_remapping.trigger,
                            ) && found_span == bpre[j as int].1,
                            forall|k: int|
                                0 <= k < j ==> bpre[k].0 != basic_trigger_view(
                                    basic_remapping.trigger,
                                ),
                        decreases n - j,
                    {
                        if basic_trigger_eq(&self.basic_remappings[j].0, &basic_remapping.trigger) {
                            found = true;
                            found_span = self.basic_remappings[j].1;
                            proof {
                                assert(bpre[j as int] == (
                                    basic_trigger_view(self.basic_remappings@[j as int].0),
                                    self.basic_remappings@[j as int].1,
                                ));
                            }
                            break;
                        }
                        proof {
                            assert(bpre[j as int] == (
                                basic_trigger_view(self.basic_remappings@[j as int].0),
                                self.basic_remappings@[j as int].1,
                            ));
                        }
                        j = j + 1;
                    }
                    if found {
                        proof {
                            match spec_find_basic(
                                bpre,
                                basic_trigger_view(basic_remapping.trigger),
                            ) {
                                Some(_) => {},
                                None => {
                                    assert(bpre[j as int].0 != basic_trigger_view(
                                        basic_remapping.trigger,
                                    ));
                                    assert(false);
                                },
                            }
                            assert(spec_insert_remappings(b0, r0, rviews.take(i + 1), span)
                                is None);
                            lemma_insert_remappings_none_extend(b0, r0, rviews, i + 1, span);
                        }
                        return Err(conflicting_binds(found_span, span));
                    }
                    proof {
                        match spec_find_basic(bpre, basic_trigger_view(basic_remapping.trigger)) {
                            Some(jj) => {
                                assert(bpre[jj].0 == basic_trigger_view(basic_remapping.trigger));
                                assert(false);
                            },
                            None => {},
                        }
                    }
                    let t = clone_basic_trigger(&basic_remapping.trigger);
                    self.basic_remappings.push((t, span));
                    proof {
                        assert(basics_view(self.basic_remappings@) =~= bpre.push(
                            (basic_trigger_view(basic_remapping.trigger), span),
                        ));
                    }
                },
                Remapping::Sequence(sequence_remapping) => {
                    let steps = key_steps(&sequence_remapping.triggers);
                    if steps.len() == 0 {
                        proof {
                            assert(spec_key_steps(sequence_remapping.triggers@).len() == 0);
                            assert(spec_insert_remappings(b0, r0, rviews.take(i + 1), span)
                                is None);
                            lemma_insert_remappings_none_extend(b0, r0, rviews, i + 1, span);
                        }
                        return Err(Diagnostic::new1(
                            DiagKind::EmptySequence,
                            Severity::Error,
                            msg("empty sequences not allowed"),
                            msg("empty sequence found here"),
                            span,
                        ));
                    }
                    match insert_steps(
                        &mut self.sequence_remappings,
                        &steps,
                        0,
                        sequence_remapping.behavior,
                        span,
                    ) {
                        Ok(_) => {
                            proof {
                                assert(basics_view(self.basic_remappings@) == bpre);
                            }
                        },
                        Err(node_span) => {
                            proof {
                                assert(spec_insert_steps(
                                    rpre,
                                    spec_key_steps(sequence_remapping.triggers@),
                                    0,
                                    sequence_remapping.behavior,
                                    span,
                                ) is None);
                                assert(spec_insert_remappings(b0, r0, rviews.take(i + 1), span)
                                    is None);
                                lemma_insert_remappings_none_extend(b0, r0, rviews, i + 1, span);
                            }
                            return Err(conflicting_binds(node_span, span));
                        },
                    }
                },
            }
            i = i + 1;
        }
        proof {
            assert(rviews.take(rviews.len() as int) =~= rviews);
        }
        Ok(())
    }
}

// --- Layer and profile lowering -------------------------------------------

/// The remapping records of every statement of a layer, concatenated in
/// order.
pub open spec fn spec_statements_remaps(
    stmts: Seq<Spanned<ast::Statement>>,
    cfg: ConfigDataModel,
    names: Seq<Seq<u8>>,
    platform: Platform,
) -> Seq<RemappingV>
    decreases stmts.len(),
{
    if stmts.len() == 0 {
        Seq::empty()
    } else {
        spec_lower_statement(stmts.first().value, cfg, names, platform) + spec_statements_remaps(
            stmts.drop_first(),
            cfg,
            names,
            platform,
        )
    }
}

/// Appending one statement appends its records.
pub proof fn lemma_statements_remaps_push(
    stmts: Seq<Spanned<ast::Statement>>,
    x: Spanned<ast::Statement>,
    cfg: ConfigDataModel,
    names: Seq<Seq<u8>>,
    platform: Platform,
)
    ensures
        spec_statements_remaps(stmts.push(x), cfg, names, platform) == spec_statements_remaps(
            stmts,
            cfg,
            names,
            platform,
        ) + spec_lower_statement(x.value, cfg, names, platform),
    decreases stmts.len(),
{
    let lowered = spec_lower_statement(x.value, cfg, names, platform);
    if stmts.len() == 0 {
        assert(stmts.push(x).len() == 1);
        assert(stmts.push(x).first() == x);
        assert(stmts.push(x).drop_first() =~= Seq::<Spanned<ast::Statement>>::empty());
        assert(spec_statements_remaps(stmts.push(x), cfg, names, platform) == lowered
            + spec_statements_remaps(stmts.push(x).drop_first(), cfg, names, platform));
        assert(lowered + Seq::<RemappingV>::empty() =~= lowered);
        assert(Seq::<RemappingV>::empty() + lowered =~= lowered);
    } else {
        assert(stmts.push(x).first() == stmts.first());
        assert(stmts.push(x).drop_first() =~= stmts.drop_first().push(x));
        lemma_statements_remaps_push(stmts.drop_first(), x, cfg, names, platform);
        let head = spec_lower_statement(stmts.first().value, cfg, names, platform);
        let tail = spec_statements_remaps(stmts.drop_first(), cfg, names, platform);
        assert(head + (tail + lowered) =~= (head + tail) + lowered);
    }
}

/// Running the conflict detector over every statement of a layer in order,
/// each statement's records claimed under its span.
pub open spec fn spec_insert_statements(
    basics: Seq<(BasicTriggerV, Span)>,
    roots: Seq<TrieV>,
    stmts: Seq<Spanned<ast::Statement>>,
    cfg: ConfigDataModel,
    names: Seq<Seq<u8>>,
    platform: Platform,
) -> Option<(Seq<(BasicTriggerV, Span)>, Seq<TrieV>)>
    decreases stmts.len(),
{
    if stmts.len() == 0 {
        Some((basics, roots))
    } else {
        match spec_insert_remappings(
            basics,
            roots,
            spec_lower_statement(stmts.first().value, cfg, names, platform),
            stmts.first().span,
        ) {
            Some((b2, r2)) => spec_insert_statements(b2, r2, stmts.drop_first(), cfg, names, platform),
            None => None,
        }
    }
}

/// Inserting one more statement folds onto the end.
pub proof fn lemma_insert_statements_push(
    basics: Seq<(BasicTriggerV, Span)>,
    roots: Seq<TrieV>,
    stmts: Seq<Spanned<ast::Statement>>,
    x: Spanned<ast::Statement>,
    cfg: ConfigDataModel,
    names: Seq<Seq<u8>>,
    platform: Platform,
)
    ensures
        spec_insert_statements(basics, roots, stmts.push(x), cfg, names, platform) == (
        match spec_insert_statements(basics, roots, stmts, cfg, names, platform) {
            Some((b2, r2)) => spec_insert_remappings(
                b2,
                r2,
                spec_lower_statement(x.value, cfg, names, platform),
                x.span,
            ),
            None => None,
        }),
    decreases stmts.len(),
{
    reveal_with_fuel(spec_insert_statements, 2);
    if stmts.len() == 0 {
        assert(stmts.push(x).len() == 1);
        assert(stmts.push(x).first() == x);
        assert(stmts.push(x).drop_first() =~= Seq::<Spanned<ast::Statement>>::empty());
    } else {
        assert(stmts.push(x).first() == stmts.first());
        assert(stmts.push(x).drop_first() =~= stmts.drop_first().push(x));
        match spec_insert_remappings(
            basics,
            roots,
            spec_lower_statement(stmts.first().value, cfg, names, platform),
            stmts.first().span,
        ) {
            Some((b2, r2)) => {
                lemma_insert_statements_push(b2, r2, stmts.drop_first(), x, cfg, names, platform);
            },
            None => {},
        }
    }
}

/// Once a prefix of the statements conflicts, the whole layer conflicts.
pub proof fn lemma_insert_statements_none_extend(
    basics: Seq<(BasicTriggerV, Span)>,
    roots: Seq<TrieV>,
    stmts: Seq<Spanned<ast::Statement>>,
    k: int,
    cfg: ConfigDataModel,
    names: Seq<Seq<u8>>,
    platform: Platform,
)
    requires
        0 <= k <= stmts.len(),
        spec_insert_statements(basics, roots, stmts.take(k), cfg, names, platform) is None,
    ensures
        spec_insert_statements(basics, roots, stmts, cfg, names, platform) is None,
    decreases stmts.len() - k,
{
    if k < stmts.len() {
        assert(stmts.take(k + 1) =~= stmts.take(k).push(stmts[k]));
        lemma_insert_statements_push(basics, roots, stmts.take(k), stmts[k], cfg, names, platform);
        lemma_insert_statements_none_extend(basics, roots, stmts, k + 1, cfg, names, platform);
    } else {
        assert(stmts.take(k) =~= stmts);
    }
}

/// Whether a whole layer lowers without a conflict: every statement's
/// records insert into an initially empty conflict state.
pub open spec fn spec_layer_ok(
    l: ast::Layer,
    cfg: ConfigDataModel,
    names: Seq<Seq<u8>>,
    platform: Platform,
) -> bool {
    spec_insert_statements(
        Seq::<(BasicTriggerV, Span)>::empty(),
        Seq::<TrieV>::empty(),
        l.statements@,
        cfg,
        names,
        platform,
    ) is Some
}

impl ast::Layer {
    /// Lowers one layer: every statement's records in order, with the
    /// conflict detector running as they are produced. Succeeds exactly
    /// when no two statements' trigger paths collide and no composite
    /// trigger desugars to zero key events.
    #[verifier::loop_isolation(false)]
    #[verifier::rlimit(60)]
    pub fn compile(
        layer: &Spanned<ast::Layer>,
        config: &ConfigData,
        layers: &Vec<Spanned<ast::Layer>>,
        platform: Platform,
    ) -> (r: Result<Layer, Diagnostic>)
        requires
            crate::check::layer_refs_resolve(
                crate::check::layer_names_of(layers@),
                layer.value,
            ),
        ensures
            ({
                let names = crate::check::layer_names_of(layers@);
                let cfg = config.model();
                match r {
                    Ok(cl) => cl.layer_name@ == layer.value.name.value@ && remappings_view(
                        cl.remappings@,
                    ) == spec_statements_remaps(layer.value.statements@, cfg, names, platform)
                        && spec_layer_ok(layer.value, cfg, names, platform),
                    Err(d) => d.is_error() && (d.kind == DiagKind::EmptySequence || d.kind
                        == DiagKind::ConflictingStatements) && (d.kind
                        == DiagKind::ConflictingStatements ==> d.sig().spans.len() == 2)
                        && !spec_layer_ok(layer.value, cfg, names, platform) && (exists|k: int|
                        #![trigger layer.value.statements@.take(k)]
                        0 <= k < layer.value.statements@.len() && (match spec_insert_statements(
                            Seq::<(BasicTriggerV, Span)>::empty(),
                            Seq::<TrieV>::empty(),
                            layer.value.statements@.take(k),
                            cfg,
                            names,
                            platform,
                        ) {
                            // Lowering is fail-fast: every statement before
                            // the reported one inserted cleanly, and the
                            // reported one is the first to fail, at its span.
                            Some((b2, r2)) => spec_insert_remappings(
                                b2,
                                r2,
                                spec_lower_statement(
                                    layer.value.statements@[k].value,
                                    cfg,
                                    names,
                                    platform,
                                ),
                                layer.value.statements@[k].span,
                            ) is None && (d.kind == DiagKind::EmptySequence ==> d.sig().spans
                                == seq![layer.value.statements@[k].span]) && (d.kind
                                == DiagKind::ConflictingStatements ==> d.sig().spans[1]
                                == layer.value.statements@[k].span),
                            None => false,
                        })),
                }
            }),
    {
        let ghost names = crate::check::layer_names_of(layers@);
        let ghost cfg = config.model();
        let ghost stmts = layer.value.statements@;
        let mut state = LayerCompilationState::new();
        let mut all: Vec<Remapping> = Vec::new();
        let mut k: usize = 0;
        proof {
            assert(stmts.take(0int) =~= Seq::<Spanned<ast::Statement>>::empty());
            assert(remappings_view(all@) =~= spec_statements_remaps(
                stmts.take(0int),
                cfg,
                names,
                platform,
            ));
        }
        while k < layer.value.statements.len()
            invariant
                k <= stmts.len(),
                spec_insert_statements(
                    Seq::<(BasicTriggerV, Span)>::empty(),
                    Seq::<TrieV>::empty(),
                    stmts.take(k as int),
                    cfg,
                    names,
                    platform,
                ) == Some(
                    (
                        basics_view(state.basic_remappings@),
                        tries_view(state.sequence_remappings@),
                    ),
                ),
                remappings_view(all@) == spec_statements_remaps(
                    stmts.take(k as int),
                    cfg,
                    names,
                    platform,
                ),
            decreases stmts.len() - k,
        {
            let ghost all_pre = all@;
            proof {
                assert(stmts.take(k + 1) =~= stmts.take(k as int).push(stmts[k as int]));
                lemma_insert_statements_push(
                    Seq::<(BasicTriggerV, Span)>::empty(),
                    Seq::<TrieV>::empty(),
                    stmts.take(k as int),
                    stmts[k as int],
                    cfg,
                    names,
                    platform,
                );
                lemma_statements_remaps_push(
                    stmts.take(k as int),
                    stmts[k as int],
                    cfg,
                    names,
                    platform,
                );
                assert(crate::check::stmt_resolves(names, stmts[k as int].value));
            }
            let stmt_span = layer.value.statements[k].span;
            let mut remaps = ast::Statement::compile(
                &layer.value.statements[k],
                config,
                layers,
                platform,
            );
            match state.try_insert_remappings(&remaps, stmt_span) {
                Ok(_) => (),
                Err(d) => {
                    proof {
                        lemma_insert_statements_none_extend(
                            Seq::<(BasicTriggerV, Span)>::empty(),
                            Seq::<TrieV>::empty(),
                            stmts,
                            k + 1,
                            cfg,
                            names,
                            platform,
                        );
                    }
                    return Err(d);
                },
            }
            let ghost remaps_pre = remaps@;
            let ghost remaps_v = remappings_view(remaps@);
            all.append(&mut remaps);
            k = k + 1;
            proof {
                assert(all@ == all_pre + remaps_pre);
                assert forall|jj: int|
                    0 <= jj < all@.len() implies remappings_view(all@)[jj] == (remappings_view(
                    all_pre,
                ) + remaps_v)[jj] by {
                    if jj < all_pre.len() {
                        assert(all@[jj] == all_pre[jj]);
                    } else {
                        assert(all@[jj] == remaps_pre[jj - all_pre.len()]);
                    }
                }
                assert(remappings_view(all@) =~= remappings_view(all_pre) + remaps_v);
            }
        }
        proof {
            assert(stmts.take(stmts.len() as int) =~= stmts);
        }
        Ok(Layer {
            layer_name: crate::utils::copy_bytes(&layer.value.name.value),
            remappings: all,
        })
    }
}

/// The resolved default-layer index: the first layer carrying the
/// configured name, or the first layer if none is configured.
pub open spec fn spec_default_index(p: ast::Profile) -> int {
    match crate::check::spec_first_default(p.config.value.entry_values()) {
        Some(n) => match spec_find_layer(layer_names(p), n) {
            Some(i) => i,
            None => 0,
        },
        None => 0,
    }
}

impl ast::Profile {
    /// Lowers a checked profile into the compiled artifact. Succeeds exactly
    /// when every layer lowers without a conflict.
    #[verifier::loop_isolation(false)]
    #[verifier::rlimit(60)]
    pub fn compile(&self, platform: Platform) -> (r: Result<Profile, Diagnostic>)
        requires
            crate::check::all_refs_resolve(*self),
            crate::check::default_resolves(*self),
        ensures
            ({
                let names = layer_names(*self);
                let cfg = crate::ast::spec_resolve_config(self.config.value.entry_values());
                match r {
                    Ok(p) => p.profile_name@ == self.name.value@ && p.default_layer
                        == spec_default_index(*self) && p.layers@.len() == self.layers@.len() && (
                    forall|i: int|
                        0 <= i < p.layers@.len() ==> (#[trigger] p.layers@[i]).layer_name@
                            == names[i] && remappings_view(p.layers@[i].remappings@)
                            == spec_statements_remaps(
                            self.layers@[i].value.statements@,
                            cfg,
                            names,
                            platform,
                        )) && (forall|i: int|
                        0 <= i < self.layers@.len() ==> spec_layer_ok(
                            (#[trigger] self.layers@[i]).value,
                            cfg,
                            names,
                            platform,
                        )),
                    Err(d) => d.is_error() && (exists|i: int|
                        0 <= i < self.layers@.len() && !spec_layer_ok(
                            (#[trigger] self.layers@[i]).value,
                            cfg,
                            names,
                            platform,
                        )),
                }
            }),
    {
        let ghost names = layer_names(*self);
        let config_data = self.config.value.to_data();
        proof {
            crate::check::lemma_resolve_default(self.config.value.entry_values());
        }
        let default_layer: usize = match &config_data.default_layer {
            Some(nm) => {
                match resolve_layer_name(&self.layers, nm) {
                    Some(idx) => {
                        proof {
                            lemma_find_layer_props(names, nm@);
                        }
                        idx
                    },
                    None => {
                        proof {
                            lemma_find_layer_props(names, nm@);
                            assert(false);
                        }
                        0
                    },
                }
            },
            None => 0,
        };
        let mut layers: Vec<Layer> = Vec::new();
        let mut i: usize = 0;
        while i < self.layers.len()
            invariant
                i <= self.layers@.len(),
                layers@.len() == i,
                forall|k: int|
                    0 <= k < i ==> (#[trigger] layers@[k]).layer_name@ == names[k]
                        && remappings_view(layers@[k].remappings@) == spec_statements_remaps(
                        self.layers@[k].value.statements@,
                        config_data.model(),
                        names,
                        platform,
                    ),
                forall|k: int|
                    0 <= k < i ==> spec_layer_ok(
                        (#[trigger] self.layers@[k]).value,
                        config_data.model(),
                        names,
                        platform,
                    ),
            decreases self.layers@.len() - i,
        {
            proof {
                assert(crate::check::layer_refs_resolve(names, self.layers@[i as int].value));
            }
            match ast::Layer::compile(&self.layers[i], &config_data, &self.layers, platform) {
                Ok(cl) => {
                    layers.push(cl);
                },
                Err(d) => {
                    proof {
                        assert(config_data.model() == crate::ast::spec_resolve_config(
                            self.config.value.entry_values(),
                        ));
                        assert(!spec_layer_ok(
                            self.layers@[i as int].value,
                            crate::ast::spec_resolve_config(self.config.value.entry_values()),
                            names,
                            platform,
                        ));
                    }
                    return Err(d);
                },
            }
            i = i + 1;
        }
        proof {
            assert(config_data.model() == crate::ast::spec_resolve_config(
                self.config.value.entry_values(),
            ));
            assert(default_layer == spec_default_index(*self));
        }
        Ok(Profile {
            profile_name: crate::utils::copy_bytes(&self.name.value),
            default_layer,
            layers,
        })
    }
}

// --- Laws of the conflict detector and of lowering ----------------------

/// A basic trigger is claimed at most once per layer: once any statement
/// has claimed it, a later basic remapping with the same trigger is always
/// rejected, whatever binds it carries and whatever else the detector has
/// seen.
pub proof fn lemma_basic_trigger_claimed_once(
    basics: Seq<(BasicTriggerV, Span)>,
    roots: Seq<TrieV>,
    t: BasicTriggerV,
    binds: Seq<BindV>,
    span: Span,
    k: int,
)
    requires
        0 <= k < basics.len(),
        basics[k].0 == t,
    ensures
        spec_insert_remapping(
            basics,
            roots,
            RemappingV::Basic { trigger: t, binds: binds },
            span,
        ) is None,
{
    lemma_find_basic_props(basics, t);
    match spec_find_basic(basics, t) {
        Some(_) => {},
        None => {
            assert(basics[k].0 != t);
        },
    }
}

/// Inserting a sequence path into an empty trie always succeeds and builds
/// exactly the fresh chain of its steps.
pub proof fn lemma_first_sequence_inserts(
    s: Seq<AdvancedTrigger>,
    b: Behavior,
    span: Span,
)
    requires
        s.len() > 0,
    ensures
        spec_insert_steps(Seq::<TrieV>::empty(), s, 0, b, span) == Some(
            seq![spec_fresh_node(s, 0, b, span)],
        ),
{
    assert(find_edge(Seq::<TrieV>::empty(), s[0]) is None);
    assert(Seq::<TrieV>::empty().push(spec_fresh_node(s, 0, b, span)) =~= seq![
        spec_fresh_node(s, 0, b, span),
    ]);
}

/// Walking a second sequence through the chain of a first one fails while
/// the two agree: the walk either runs past the chain's end, ends on an
/// existing node, or meets a different behavior.
proof fn lemma_fresh_chain_insert_conflict(
    s1: Seq<AdvancedTrigger>,
    s2: Seq<AdvancedTrigger>,
    i: int,
    b1: Behavior,
    b2: Behavior,
    span1: Span,
    span2: Span,
)
    requires
        0 <= i < s1.len(),
        i < s2.len(),
        forall|j: int| i <= j < s1.len() && j < s2.len() ==> s1[j] == s2[j],
    ensures
        spec_insert_steps(seq![spec_fresh_node(s1, i, b1, span1)], s2, i, b2, span2) is None,
    decreases s2.len() - i,
{
    let edges = seq![spec_fresh_node(s1, i, b1, span1)];
    let node = edges[0];
    assert(node.step == s1[i]);
    assert(node.step == s2[i]);
    assert(find_edge(edges, s2[i]) == Some(0int));
    if node.behavior != b2 {
    } else if i == s2.len() - 1 {
    } else if node.next.len() == 0 {
    } else {
        assert(i + 1 < s1.len());
        assert(node.next == seq![spec_fresh_node(s1, i + 1, b1, span1)]);
        lemma_fresh_chain_insert_conflict(s1, s2, i + 1, b1, b2, span1, span2);
    }
}

/// No two sequence triggers of a layer may stand in a prefix relationship:
/// after one path is in the trie, a second whose key steps are a prefix or
/// an extension of the first (or identical to it) is always rejected,
/// whatever either behavior is and in whichever order the two appear.
pub proof fn lemma_prefix_sequences_conflict(
    s1: Seq<AdvancedTrigger>,
    s2: Seq<AdvancedTrigger>,
    b1: Behavior,
    b2: Behavior,
    span1: Span,
    span2: Span,
)
    requires
        s1.len() > 0,
        s2.len() > 0,
        s1.is_prefix_of(s2) || s2.is_prefix_of(s1),
    ensures
        spec_insert_steps(
            seq![spec_fresh_node(s1, 0, b1, span1)],
            s2,
            0,
            b2,
            span2,
        ) is None,
{
    assert forall|j: int| 0 <= j < s1.len() && j < s2.len() implies s1[j] == s2[j] by {
        if s1.is_prefix_of(s2) {
            assert(s1 =~= s2.subrange(0, s1.len() as int));
        } else {
            assert(s2 =~= s1.subrange(0, s2.len() as int));
        }
    }
    lemma_fresh_chain_insert_conflict(s1, s2, 0, b1, b2, span1, span2);
}

/// A shared trigger-path prefix cannot carry two different behaviors: two
/// sequences agreeing on their first key step but declared with different
/// behaviors conflict, even when neither is a prefix of the other.
pub proof fn lemma_behavior_mismatch_conflict(
    s1: Seq<AdvancedTrigger>,
    s2: Seq<AdvancedTrigger>,
    b1: Behavior,
    b2: Behavior,
    span1: Span,
    span2: Span,
)
    requires
        s1.len() > 0,
        s2.len() > 0,
        s1[0] == s2[0],
        b1 != b2,
    ensures
        spec_insert_steps(
            seq![spec_fresh_node(s1, 0, b1, span1)],
            s2,
            0,
            b2,
            span2,
        ) is None,
{
    let edges = seq![spec_fresh_node(s1, 0, b1, span1)];
    assert(edges[0].step == s2[0]);
    assert(find_edge(edges, s2[0]) == Some(0int));
}

/// A timeout entry that is never written resolves to the fixed default.
pub proof fn lemma_unset_tap_timeout_defaults(entries: Seq<ast::ConfigEntry>)
    requires
        forall|i: int|
            0 <= i < entries.len() ==> !((#[trigger] entries[i]) matches
                ast::ConfigEntry::TapTimeout(_)),
    ensures
        crate::ast::spec_resolve_config(entries).tap_timeout == ast::DEFAULT_TIMEOUT,
    decreases entries.len(),
{
    if entries.len() > 0 {
        assert(forall|i: int|
            0 <= i < entries.drop_first().len() ==> entries.drop_first()[i] == entries[i + 1]);
        lemma_unset_tap_timeout_defaults(entries.drop_first());
    }
}

/// `tap(k)` with no explicit timeout lowers to one sequence remapping whose
/// middle step waits at most the resolved tap timeout.
pub proof fn lemma_tap_timeout_resolution(
    s: ast::Statement,
    cfg: ConfigDataModel,
    names: Seq<Seq<u8>>,
    platform: Platform,
)
    requires
        (match s.lhs.value {
            ast::Trigger::Tap(_, _, timeout) => timeout is None,
            _ => false,
        }),
    ensures
        ({
            let rs = spec_lower_statement(s, cfg, names, platform);
            &&& rs.len() == 1
            &&& (match (s.lhs.value, rs[0]) {
                (
                    ast::Trigger::Tap(key, _, _),
                    RemappingV::Sequence { triggers, .. },
                ) => triggers =~= seq![
                    AdvancedTrigger::KeyPress { value: key.value },
                    AdvancedTrigger::MaximumWait { duration: cfg.tap_timeout },
                    AdvancedTrigger::KeyRelease { value: key.value },
                ],
                _ => false,
            })
        }),
{
}

/// A bare key-to-key remap `a = b` lowers to exactly two basic remappings:
/// press(a) binds press(b) and release(a) binds release(b), the key-swap
/// special case rather than a generic press/release pair.
pub proof fn lemma_key_swap_lowering(
    s: ast::Statement,
    cfg: ConfigDataModel,
    names: Seq<Seq<u8>>,
    platform: Platform,
    ka: KeyIdent,
    kb: KeyIdent,
)
    requires
        (match s.lhs.value {
            ast::Trigger::Key(t) => (match t.value {
                ast::Key::Unspecified(x) => x.value == ka,
                _ => false,
            }),
            _ => false,
        }),
        s.rhs@.len() == 1,
        (match s.rhs@[0].value {
            ast::Bind::Key(bk) => (match bk.value {
                ast::Key::Unspecified(y) => y.value == kb,
                _ => false,
            }),
            _ => false,
        }),
    ensures
        spec_lower_statement(s, cfg, names, platform) =~~= seq![
            RemappingV::Basic {
                trigger: BasicTriggerV::KeyPress(ka),
                binds: seq![BindV::PressKey(kb)],
            },
            RemappingV::Basic {
                trigger: BasicTriggerV::KeyRelease(ka),
                binds: seq![BindV::ReleaseKey(kb)],
            },
        ],
{
    assert(spec_is_key_swap(s));
}

} // verus!
