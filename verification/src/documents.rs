//! Loading documents: which load requests the service takes, and the
//! `--load` argument of the service shell (a document path, optionally
//! followed by `:` and the document's kind).

use vstd::prelude::*;
use vstd::slice::slice_subrange;
use vstd::string::StringSliceAdditionalSpecFns;

use crate::text::bytes_equal;

verus! {

/// Index of the last `x` in `s`.
pub open spec fn last_index_of(s: Seq<u8>, x: u8) -> Option<int>
    decreases s.len(),
{
    if s.len() == 0 {
        None
    } else if s.last() == x {
        Some(s.len() - 1)
    } else {
        last_index_of(s.drop_last(), x)
    }
}

/// The bytes of one of the two document kinds.
pub open spec fn known_kind(k: Seq<u8>) -> bool {
    k == "experiment_config".spec_bytes() || k == "macro_pack".spec_bytes()
}

/// Where the kind suffix of a load argument starts: after its last colon,
/// when what follows the colon is a known kind.
pub open spec fn kind_colon(arg: Seq<u8>) -> Option<int> {
    match last_index_of(arg, 58) {
        Some(i) => if known_kind(arg.skip(i + 1)) {
            Some(i)
        } else {
            None
        },
        None => None,
    }
}

/// Split `<path>:<kind>` into the path and the kind when the text after the
/// last colon is `experiment_config` or `macro_pack`; any other argument is
/// a plain path.
pub fn split_load_arg(arg: &str) -> (r: (&str, Option<&str>))
    ensures
        match kind_colon(arg.spec_bytes()) {
            Some(i) => r.0.spec_bytes() == arg.spec_bytes().take(i) && (r.1 matches Some(k) && k.spec_bytes()
                == arg.spec_bytes().skip(i + 1)),
            None => r.0 == arg && r.1 is None,
        },
{
    let b = arg.as_bytes();
    let mut i: usize = b.len();
    proof {
        assert(b@.take(i as int) =~= b@);
    }
    while i > 0
        invariant
            i <= b@.len(),
            b@ == arg.spec_bytes(),
            last_index_of(b@, 58) == last_index_of(b@.take(i as int), 58),
        ensures
            i == 0 || b@[i - 1] == 58,
        decreases i,
    {
        proof {
            assert(b@.take(i as int).drop_last() =~= b@.take(i as int - 1));
        }
        if b[i - 1] == 58 {
            break;
        }
        i = i - 1;
    }
    if i == 0 {
        proof {
            assert(b@.take(0) =~= Seq::<u8>::empty());
        }
        return (arg, None);
    }
    let j = i - 1;
    proof {
        assert(b@.take(i as int).last() == b@[j as int]);
        assert(last_index_of(b@, 58) == Some(j as int));
    }
    let tail = slice_subrange(b, i, b.len());
    let kind: &str = if bytes_equal(tail, "experiment_config".as_bytes()) {
        "experiment_config"
    } else if bytes_equal(tail, "macro_pack".as_bytes()) {
        "macro_pack"
    } else {
        proof {
            assert(tail@ =~= b@.skip(i as int));
        }
        return (arg, None);
    };
    proof {
        assert(tail@ =~= b@.skip(i as int));
        vstd::utf8::encode_utf8_valid_utf8(arg@);
        vstd::utf8::is_char_boundary_iff_not_is_continuation_byte(b@, j as int);
    }
    let (path, _rest) = arg.split_at(j);
    (path, Some(kind))
}

/// The kind a load request names.
#[derive(Clone, Copy, Debug, PartialEq, Eq)]
pub enum DocumentKind {
    Unspecified,
    ExperimentConfig,
    MacroPack,
    EventGrammar,
}

/// Where a load request's document comes from.
#[derive(Clone, Copy, Debug, PartialEq, Eq)]
pub enum DocumentSource {
    Missing,
    ArtifactRef,
    DocumentYaml,
}

/// Why a load request was refused before its document was read.
#[derive(Clone, Copy, Debug, PartialEq, Eq)]
pub enum LoadRejection {
    EventGrammarUnsupported,
    MacroPacksNotYet,
    KindUnspecified,
    ArtifactRefUnsupported,
}

impl LoadRejection {
    /// The message the service answers with.
    pub fn message(&self) -> (m: &'static str)
        ensures
            m@ == match self {
                LoadRejection::EventGrammarUnsupported => "event_grammar documents are not supported until M5"@,
                LoadRejection::MacroPacksNotYet => "macro packs land with M2"@,
                LoadRejection::KindUnspecified => "kind must be specified"@,
                LoadRejection::ArtifactRefUnsupported =>
                    "artifact_ref sources are not supported in standalone mode; send document_yaml"@,
            },
    {
        match self {
            LoadRejection::EventGrammarUnsupported => "event_grammar documents are not supported until M5",
            LoadRejection::MacroPacksNotYet => "macro packs land with M2",
            LoadRejection::KindUnspecified => "kind must be specified",
            LoadRejection::ArtifactRefUnsupported =>
                "artifact_ref sources are not supported in standalone mode; send document_yaml",
        }
    }
}

/// The load service reads inline experiment configs only: the kind is
/// checked first, then the source.
pub fn check_load_request(kind: DocumentKind, source: DocumentSource) -> (r: Result<(), LoadRejection>)
    ensures
        r == match kind {
            DocumentKind::EventGrammar => Err(LoadRejection::EventGrammarUnsupported),
            DocumentKind::MacroPack => Err(LoadRejection::MacroPacksNotYet),
            DocumentKind::Unspecified => Err(LoadRejection::KindUnspecified),
            DocumentKind::ExperimentConfig => match source {
                DocumentSource::DocumentYaml => Ok(()),
                _ => Err(LoadRejection::ArtifactRefUnsupported),
            },
        },
{
    match kind {
        DocumentKind::EventGrammar => Err(LoadRejection::EventGrammarUnsupported),
        DocumentKind::MacroPack => Err(LoadRejection::MacroPacksNotYet),
        DocumentKind::Unspecified => Err(LoadRejection::KindUnspecified),
        DocumentKind::ExperimentConfig => match source {
            DocumentSource::DocumentYaml => Ok(()),
            _ => Err(LoadRejection::ArtifactRefUnsupported),
        },
    }
}

/// The top-level `kind` string of a YAML document as serde_yaml reads it:
/// `None` when the bytes do not parse, or the document has no string
/// `kind` at the top level.
pub uninterp spec fn yaml_top_kind(bytes: Seq<u8>) -> Option<Seq<char>>;

/// Parses `bytes` with `serde_yaml::from_slice` into a `serde_yaml::Value`
/// and reads its top-level `kind` (`Value::get`, `Value::as_str`). Claimed:
/// the result is `yaml_top_kind` of the bytes, a function of them alone.
#[verifier::external_body]
fn yaml_top_kind_of(bytes: &[u8]) -> (r: Option<String>)
    ensures
        match r {
            Some(s) => yaml_top_kind(bytes@) == Some(s@),
            None => yaml_top_kind(bytes@) is None,
        },
{
    let value: serde_yaml::Value = serde_yaml::from_slice(bytes).ok()?;
    value.get("kind").and_then(serde_yaml::Value::as_str).map(str::to_owned)
}

/// The document's own top-level `kind`, or the empty string when the bytes
/// do not parse or name no kind; the caller refuses anything unrecognized.
pub fn sniff_kind(bytes: &[u8]) -> (r: String)
    ensures
        r@ == match yaml_top_kind(bytes@) {
            Some(k) => k,
            None => Seq::<char>::empty(),
        },
{
    match yaml_top_kind_of(bytes) {
        Some(k) => k,
        None => String::new(),
    }
}

} // verus!
