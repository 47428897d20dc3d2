//! The syntax tree of a profile.
//!
//! Every node pairs a value with the source span it was parsed from. The
//! grammar rules that build these nodes live in the parser module; this
//! module holds the shapes and the configuration-resolution logic.

pub mod key;

use crate::ast::key::KeyIdent;
use crate::utils::Spanned;
use vstd::prelude::*;

verus! {

/// The default for every named timeout, in the daemon's time units.
pub const DEFAULT_TIMEOUT: usize = 200;

/// The full user-authored configuration unit: one name, one configuration
/// block, many layers.
#[derive(Debug, Clone)]
pub struct Profile {
    pub name: Spanned<Vec<u8>>,
    pub config: Spanned<Config>,
    pub layers: Vec<Spanned<Layer>>,
}

/// The `config { ... }` block: an ordered sequence of entries.
#[derive(Debug, Clone)]
pub struct Config {
    pub entries: Vec<Spanned<ConfigEntry>>,
}

/// One `key = value` line of the configuration block.
#[derive(Debug, Clone)]
pub enum ConfigEntry {
    DefaultLayer(Spanned<Vec<u8>>),
    DefaultBehavior(Spanned<Behavior>),
    TapTimeout(Spanned<usize>),
    HoldTime(Spanned<usize>),
    ChordTimeout(Spanned<usize>),
    SequenceTimeout(Spanned<usize>),
    ComboTimeout(Spanned<usize>),
    Advanced(bool),
}

/// How the daemon treats the original key event relative to emitted binds.
#[derive(Debug, Clone, Copy, PartialEq, Eq, Structural)]
pub enum Behavior {
    Capture,
    Release,
    Wait,
}

impl Default for Behavior {
    /// The default behavior is `wait`: the daemon decides.
    fn default() -> (r: Behavior)
        ensures
            r == Behavior::Wait,
    {
        Behavior::Wait
    }
}

/// The timeout value of a timeout-carrying entry.
pub open spec fn spec_get_timeout(e: ConfigEntry) -> Option<usize> {
    match e {
        ConfigEntry::TapTimeout(t) => Some(t.value),
        ConfigEntry::HoldTime(t) => Some(t.value),
        ConfigEntry::ChordTimeout(t) => Some(t.value),
        ConfigEntry::SequenceTimeout(t) => Some(t.value),
        ConfigEntry::ComboTimeout(t) => Some(t.value),
        _ => None,
    }
}

impl ConfigEntry {
    /// The timeout this entry carries, if it is one of the five timeout
    /// entries.
    pub fn get_timeout(&self) -> (r: Option<usize>)
        ensures
            r == spec_get_timeout(*self),
    {
        match self {
            ConfigEntry::TapTimeout(t) => Some(t.value),
            ConfigEntry::HoldTime(t) => Some(t.value),
            ConfigEntry::ChordTimeout(t) => Some(t.value),
            ConfigEntry::SequenceTimeout(t) => Some(t.value),
            ConfigEntry::ComboTimeout(t) => Some(t.value),
            _ => None,
        }
    }
}

/// The resolved, default-filled configuration record shared by the lowering
/// of every layer.
#[derive(Debug, Clone)]
pub struct ConfigData {
    pub default_layer: Option<Vec<u8>>,
    pub default_behavior: Behavior,
    pub tap_timeout: usize,
    pub hold_time: usize,
    pub chord_timeout: usize,
    pub sequence_timeout: usize,
    pub combo_timeout: usize,
    pub advanced: bool,
}

/// The spec-level shape of a resolved configuration (names as sequences).
pub struct ConfigDataModel {
    pub default_layer: Option<Seq<u8>>,
    pub default_behavior: Behavior,
    pub tap_timeout: usize,
    pub hold_time: usize,
    pub chord_timeout: usize,
    pub sequence_timeout: usize,
    pub combo_timeout: usize,
    pub advanced: bool,
}

impl ConfigData {
    /// The spec-level shape of this resolved configuration.
    pub open spec fn model(&self) -> ConfigDataModel {
        ConfigDataModel {
            default_layer: match self.default_layer {
                Some(v) => Some(v@),
                None => None,
            },
            default_behavior: self.default_behavior,
            tap_timeout: self.tap_timeout,
            hold_time: self.hold_time,
            chord_timeout: self.chord_timeout,
            sequence_timeout: self.sequence_timeout,
            combo_timeout: self.combo_timeout,
            advanced: self.advanced,
        }
    }
}

/// The configuration with every entry left unset: `wait` behavior and the
/// default timeout everywhere.
pub open spec fn spec_default_config() -> ConfigDataModel {
    ConfigDataModel {
        default_layer: None,
        default_behavior: Behavior::Wait,
        tap_timeout: DEFAULT_TIMEOUT,
        hold_time: DEFAULT_TIMEOUT,
        chord_timeout: DEFAULT_TIMEOUT,
        sequence_timeout: DEFAULT_TIMEOUT,
        combo_timeout: DEFAULT_TIMEOUT,
        advanced: false,
    }
}

impl Default for ConfigData {
    /// The default-filled configuration record.
    fn default() -> (r: ConfigData)
        ensures
            r.model() == spec_default_config(),
    {
        ConfigData {
            default_layer: None,
            default_behavior: Behavior::Wait,
            tap_timeout: DEFAULT_TIMEOUT,
            hold_time: DEFAULT_TIMEOUT,
            chord_timeout: DEFAULT_TIMEOUT,
            sequence_timeout: DEFAULT_TIMEOUT,
            combo_timeout: DEFAULT_TIMEOUT,
            advanced: false,
        }
    }
}

/// One entry overwriting the field of its kind in a resolved configuration.
pub open spec fn spec_apply_entry(d: ConfigDataModel, e: ConfigEntry) -> ConfigDataModel {
    match e {
        ConfigEntry::DefaultLayer(v) => ConfigDataModel { default_layer: Some(v.value@), ..d },
        ConfigEntry::DefaultBehavior(v) => ConfigDataModel { default_behavior: v.value, ..d },
        ConfigEntry::TapTimeout(v) => ConfigDataModel { tap_timeout: v.value, ..d },
        ConfigEntry::HoldTime(v) => ConfigDataModel { hold_time: v.value, ..d },
        ConfigEntry::ChordTimeout(v) => ConfigDataModel { chord_timeout: v.value, ..d },
        ConfigEntry::SequenceTimeout(v) => ConfigDataModel { sequence_timeout: v.value, ..d },
        ConfigEntry::ComboTimeout(v) => ConfigDataModel { combo_timeout: v.value, ..d },
        ConfigEntry::Advanced(v) => ConfigDataModel { advanced: v, ..d },
    }
}

/// Resolution of a configuration block: entries are applied from the last
/// to the first, so the first entry written in source order wins.
pub open spec fn spec_resolve_config(entries: Seq<ConfigEntry>) -> ConfigDataModel
    decreases entries.len(),
{
    if entries.len() == 0 {
        spec_default_config()
    } else {
        spec_apply_entry(spec_resolve_config(entries.drop_first()), entries.first())
    }
}

impl Config {
    /// The entry values of this block, in source order.
    pub open spec fn entry_values(&self) -> Seq<ConfigEntry> {
        self.entries@.map_values(|e: Spanned<ConfigEntry>| e.value)
    }

    /// Builds the resolved configuration record: later entries are read
    /// first, so the first entry of each kind in source order wins.
    pub fn to_data(&self) -> (r: ConfigData)
        ensures
            r.model() == spec_resolve_config(self.entry_values()),
    {
        let mut data = ConfigData::default();
        let mut i: usize = self.entries.len();
        while i > 0
            invariant
                i <= self.entries@.len(),
                data.model() == spec_resolve_config(
                    self.entry_values().skip(i as int),
                ),
            decreases i,
        {
            i = i - 1;
            let ghost pre = data.model();
            match &self.entries[i].value {
                ConfigEntry::DefaultLayer(v) => {
                    data.default_layer = Some(v.value.clone());
                },
                ConfigEntry::DefaultBehavior(v) => {
                    data.default_behavior = v.value;
                },
                ConfigEntry::TapTimeout(v) => {
                    data.tap_timeout = v.value;
                },
                ConfigEntry::HoldTime(v) => {
                    data.hold_time = v.value;
                },
                ConfigEntry::ChordTimeout(v) => {
                    data.chord_timeout = v.value;
                },
                ConfigEntry::SequenceTimeout(v) => {
                    data.sequence_timeout = v.value;
                },
                ConfigEntry::ComboTimeout(v) => {
                    data.combo_timeout = v.value;
                },
                ConfigEntry::Advanced(v) => {
                    data.advanced = *v;
                },
            }
            proof {
                assert(data.model() == spec_apply_entry(pre, self.entry_values()[i as int]));
                assert(self.entry_values().skip(i as int).drop_first() =~= self.entry_values().skip(
                    i + 1,
                ));
                assert(self.entry_values().skip(i as int).first() == self.entry_values()[i as int]);
            }
        }
        proof {
            assert(self.entry_values().skip(0) =~= self.entry_values());
        }
        data
    }
}

/// A named set of key-remapping statements.
#[derive(Debug, Clone)]
pub struct Layer {
    pub name: Spanned<Vec<u8>>,
    pub statements: Vec<Spanned<Statement>>,
}

/// One remapping statement: a trigger and one or more binds.
#[derive(Debug, Clone)]
pub struct Statement {
    pub lhs: Spanned<Trigger>,
    pub rhs: Vec<Spanned<Bind>>,
}

/// The left-hand condition of a statement.
#[derive(Debug, Clone)]
pub enum Trigger {
    Key(Spanned<Key>),
    AppFocused(Spanned<Vec<u8>>),
    Chord(Vec<Spanned<KeyIdent>>, Option<Spanned<Behavior>>, Option<Spanned<usize>>),
    Sequence(Vec<Spanned<KeyIdent>>, Option<Spanned<Behavior>>, Option<Spanned<usize>>),
    Tap(Spanned<KeyIdent>, Option<Spanned<Behavior>>, Option<Spanned<usize>>),
    Hold(Spanned<KeyIdent>, Option<Spanned<Behavior>>, Option<Spanned<usize>>),
    Combo(Vec<Spanned<Key>>, Option<Spanned<Behavior>>, Option<Spanned<usize>>),
}

/// The right-hand action of a statement.
#[derive(Debug, Clone)]
pub enum Bind {
    Key(Spanned<Key>),
    NoOp,
    ChangeLayer(Spanned<Vec<u8>>),
    Run { interpreter: Spanned<Vec<u8>>, script: Spanned<Vec<u8>> },
    OpenApp(Spanned<Vec<u8>>),
}

/// A key with an optional press-only (`_`) or release-only (`^`) marker.
#[derive(Debug, Clone, Copy)]
pub enum Key {
    Unspecified(Spanned<KeyIdent>),
    Down(Spanned<KeyIdent>),
    Up(Spanned<KeyIdent>),
}

/// The key identifier of an unmarked key.
pub open spec fn spec_is_basic_key(k: Key) -> Option<KeyIdent> {
    match k {
        Key::Unspecified(s) => Some(s.value),
        _ => None,
    }
}

impl Key {
    /// The key identifier, if the key carries no press/release marker.
    pub fn is_basic_key(self) -> (r: Option<KeyIdent>)
        ensures
            r == spec_is_basic_key(self),
    {
        match self {
            Key::Unspecified(k) => Some(k.value),
            _ => None,
        }
    }
}

} // verus!
