//! Experiment-config schema pieces that the verified logic reads: the button
//! alphabet (with name -> bit lookup) and the integer / enum settings.

use vstd::prelude::*;

verus! {

/// A declared button: its name and the bit it occupies in a segment mask.
#[derive(Clone, Debug, PartialEq)]
pub struct ButtonDef {
    pub name: String,
    pub bit: u8,
}

/// `mask` fully held on a segment ⇒ the `clear` buttons are released.
#[derive(Clone, Debug, PartialEq)]
pub struct ForbiddenMask {
    pub mask: Vec<String>,
    pub clear: Vec<String>,
}

/// The direction group (d-pad / stick buttons) and whether diagonals occur.
#[derive(Clone, Debug, PartialEq, Default)]
pub struct DirectionsCfg {
    pub group: Vec<String>,
    pub allow_diagonals: bool,
}

/// A named button alphabet with its legality rules.
#[derive(Clone, Debug, PartialEq)]
pub struct ButtonAlphabet {
    pub name: String,
    pub buttons: Vec<ButtonDef>,
    pub exclusive_groups: Vec<Vec<String>>,
    pub forbidden_masks: Vec<ForbiddenMask>,
    pub directions: DirectionsCfg,
}

/// Bit of the first declared button called `name`, if any.
pub open spec fn spec_bit(buttons: Seq<ButtonDef>, name: Seq<char>) -> Option<u8>
    decreases buttons.len(),
{
    if buttons.len() == 0 {
        None
    } else if buttons[0].name@ == name {
        Some(buttons[0].bit)
    } else {
        spec_bit(buttons.drop_first(), name)
    }
}

/// Union of the bits of `names`; `None` as soon as one name is undeclared.
pub open spec fn spec_mask(buttons: Seq<ButtonDef>, names: Seq<String>) -> Option<u16>
    decreases names.len(),
{
    if names.len() == 0 {
        Some(0u16)
    } else {
        match spec_mask(buttons, names.drop_last()) {
            None => None,
            Some(acc) => match spec_bit(buttons, names.last()@) {
                None => None,
                Some(b) => Some(acc | (1u16 << b)),
            },
        }
    }
}

/// Every declared bit fits a 16-bit segment mask.
pub open spec fn bits_in_range(buttons: Seq<ButtonDef>) -> bool {
    forall|i: int| 0 <= i < buttons.len() ==> #[trigger] buttons[i].bit < 16
}

pub proof fn lemma_spec_bit_in_range(buttons: Seq<ButtonDef>, name: Seq<char>)
    requires
        bits_in_range(buttons),
    ensures
        spec_bit(buttons, name) matches Some(b) ==> b < 16,
    decreases buttons.len(),
{
    if buttons.len() > 0 && buttons[0].name@ != name {
        assert(bits_in_range(buttons.drop_first())) by {
            assert forall|i: int| 0 <= i < buttons.drop_first().len() implies
                #[trigger] buttons.drop_first()[i].bit < 16 by {
                assert(buttons.drop_first()[i] == buttons[i + 1]);
            }
        }
        lemma_spec_bit_in_range(buttons.drop_first(), name);
    }
}

/// A name list whose prefix already has an undeclared name stays unresolvable.
pub proof fn lemma_spec_mask_prefix_none(buttons: Seq<ButtonDef>, names: Seq<String>, n: int)
    requires
        0 <= n <= names.len(),
        spec_mask(buttons, names.take(n)) is None,
    ensures
        spec_mask(buttons, names) is None,
    decreases names.len() - n,
{
    if n < names.len() {
        assert(names.take(n + 1).drop_last() =~= names.take(n));
        lemma_spec_mask_prefix_none(buttons, names, n + 1);
    } else {
        assert(names.take(n) =~= names);
    }
}

impl ButtonAlphabet {
    pub open spec fn bits_ok(&self) -> bool {
        bits_in_range(self.buttons@)
    }

    /// Whether every declared bit fits a 16-bit mask.
    pub fn bits_valid(&self) -> (r: bool)
        ensures
            r == self.bits_ok(),
    {
        let mut i: usize = 0;
        while i < self.buttons.len()
            invariant
                i <= self.buttons@.len(),
                forall|k: int| 0 <= k < i ==> #[trigger] self.buttons@[k].bit < 16,
            decreases self.buttons@.len() - i,
        {
            if self.buttons[i].bit >= 16 {
                return false;
            }
            i = i + 1;
        }
        true
    }

    /// Bit position for a button name, if declared.
    pub fn bit(&self, name: &str) -> (r: Option<u8>)
        ensures
            r == spec_bit(self.buttons@, name@),
    {
        let wanted = name.to_owned();
        let mut i: usize = 0;
        proof {
            assert(self.buttons@.skip(0) =~= self.buttons@);
        }
        while i < self.buttons.len()
            invariant
                i <= self.buttons@.len(),
                wanted@ == name@,
                spec_bit(self.buttons@, name@) == spec_bit(self.buttons@.skip(i as int), name@),
            decreases self.buttons@.len() - i,
        {
            proof {
                assert(self.buttons@.skip(i as int).drop_first() =~= self.buttons@.skip(i as int + 1));
            }
            if self.buttons[i].name == wanted {
                return Some(self.buttons[i].bit);
            }
            i = i + 1;
        }
        None
    }

    /// Bitmask over a list of button names; `None` if any name is undeclared.
    pub fn mask(&self, names: &[String]) -> (r: Option<u16>)
        requires
            self.bits_ok(),
        ensures
            r == spec_mask(self.buttons@, names@),
    {
        let mut acc: u16 = 0;
        let mut i: usize = 0;
        while i < names.len()
            invariant
                i <= names@.len(),
                self.bits_ok(),
                spec_mask(self.buttons@, names@.take(i as int)) == Some(acc),
            decreases names@.len() - i,
        {
            proof {
                assert(names@.take(i as int + 1).drop_last() =~= names@.take(i as int));
                assert(names@.take(i as int + 1).last() == names@[i as int]);
            }
            match self.bit(names[i].as_str()) {
                None => {
                    proof {
                        lemma_spec_mask_prefix_none(self.buttons@, names@, i as int + 1);
                    }
                    return None;
                },
                Some(b) => {
                    proof {
                        lemma_spec_bit_in_range(self.buttons@, names@[i as int]@);
                    }
                    acc = acc | (1u16 << b);
                },
            }
            i = i + 1;
        }
        proof {
            assert(names@.take(i as int) =~= names@);
        }
        Some(acc)
    }
}

/// Shape of the burst-length distribution.
#[derive(Clone, Copy, Debug, PartialEq, Eq)]
pub enum LengthDistribution {
    Lognormal,
    Fixed,
    Uniform,
}

/// Whether generation continues the held mask of the input history.
#[derive(Clone, Copy, Debug, PartialEq, Eq)]
pub struct StartFromHistory(pub bool);

impl Default for StartFromHistory {
    fn default() -> (r: Self)
        ensures
            r.0,
    {
        StartFromHistory(true)
    }
}

/// Comparison operator of a feature predicate.
#[derive(Clone, Copy, Debug, PartialEq, Eq)]
pub enum CmpOp {
    Lt,
    Le,
    Gt,
    Ge,
    Eq,
    Ne,
}

/// "`button` was pressed within the last `frames` frames".
#[derive(Clone, Debug, PartialEq)]
pub struct PressedWithin {
    pub button: String,
    pub frames: u32,
}

#[derive(Clone, Debug, PartialEq)]
pub struct HistoryPredicate {
    pub pressed_within: PressedWithin,
}

/// A condition on the generation context: a RAM feature compared with a
/// value (held as the bit pattern of the `f64` the document gives), or a
/// press in the recent input history.
#[derive(Clone, Debug, PartialEq)]
pub enum Predicate {
    Feature { feature: String, op: CmpOp, value_bits: u64 },
    History { history: HistoryPredicate },
}

/// Macro-generator settings.
#[derive(Clone, Debug, PartialEq)]
pub struct MacroCfg {
    pub packs: Vec<String>,
    pub pad_to_length: bool,
    pub chain_n: u32,
}

impl Default for MacroCfg {
    fn default() -> (r: Self)
        ensures
            r.packs@.len() == 0,
            r.pad_to_length,
            r.chain_n == 1,
    {
        MacroCfg { packs: Vec::new(), pad_to_length: true, chain_n: 1 }
    }
}

#[derive(Clone, Copy, Debug, PartialEq, Eq)]
pub enum ModelKindCfg {
    Pad,
    EventGrammar,
}

/// Why a config document was refused.
#[derive(Clone, Debug, PartialEq)]
pub enum ConfigError {
    /// The document does not parse; the line and column are given when known.
    Parse { message: String, line: Option<usize>, column: Option<usize> },
    /// A validation rule failed.
    Invalid(String),
}

impl ConfigError {
    /// Human-readable text: `parse error: <message>` or the validation message.
    pub fn message(&self) -> (text: String)
        ensures
            text@ == match self {
                ConfigError::Parse { message, .. } => "parse error: "@ + message@,
                ConfigError::Invalid(m) => m@,
            },
    {
        match self {
            ConfigError::Parse { message, .. } => {
                let mut text = String::from_str("parse error: ");
                text.append(message.as_str());
                text
            },
            ConfigError::Invalid(m) => m.clone(),
        }
    }
}

/// Text of a config error: `parse error: <message>` or the validation message.
pub open spec fn error_text(e: ConfigError) -> Seq<char> {
    match e {
        ConfigError::Parse { message, .. } => "parse error: "@ + message@,
        ConfigError::Invalid(m) => m@,
    }
}

/// The texts of `errs`, separated by line breaks.
pub open spec fn joined_error_texts(errs: Seq<ConfigError>) -> Seq<char>
    decreases errs.len(),
{
    if errs.len() == 0 {
        Seq::empty()
    } else if errs.len() == 1 {
        error_text(errs[0])
    } else {
        joined_error_texts(errs.drop_last()) + "\n"@ + error_text(errs.last())
    }
}

/// All of a config's failures in one text, one per line.
pub fn join_errors(errs: &[ConfigError]) -> (text: String)
    ensures
        text@ == joined_error_texts(errs@),
{
    let mut text = String::new();
    let mut i: usize = 0;
    while i < errs.len()
        invariant
            i <= errs@.len(),
            text@ == joined_error_texts(errs@.take(i as int)),
        decreases errs@.len() - i,
    {
        proof {
            assert(errs@.take(i as int + 1).drop_last() =~= errs@.take(i as int));
        }
        if i > 0 {
            text.append("\n");
        }
        let m = errs[i].message();
        text.append(m.as_str());
        i = i + 1;
    }
    proof {
        assert(errs@.take(i as int) =~= errs@);
    }
    text
}

} // verus!
