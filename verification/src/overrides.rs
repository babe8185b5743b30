//! Sparse config overrides: a YAML document merged onto the effective
//! config. Maps merge key by key (a key already present merges in place, a
//! new key goes last); anything else replaces what it overrides. Blank
//! overrides change nothing.
//!
//! The merge works on the shape of the two documents: maps with their keys,
//! and leaves that stand for the documents' other values by an index that
//! the caller resolves. A map key that is not a string is never equal to a
//! key of the config, whose keys are all strings.

use vstd::prelude::*;

use crate::config::ConfigError;
use crate::text::{first_index, lemma_first_index};

verus! {

/// A document's shape: a map of entries, or a leaf standing for any other value.
#[derive(Debug, PartialEq)]
pub enum YamlNode {
    /// Entries in document order; a string key is `Some`, any other key `None`.
    Mapping(Vec<(Option<String>, YamlNode)>),
    Leaf(u64),
}

/// The mathematical form of a [`YamlNode`].
pub enum YamlTree {
    Mapping(Seq<(Option<Seq<char>>, YamlTree)>),
    Leaf(u64),
}

pub open spec fn key_of(k: Option<String>) -> Option<Seq<char>> {
    match k {
        Some(s) => Some(s@),
        None => None,
    }
}

pub open spec fn tree_of(n: YamlNode) -> YamlTree
    decreases n,
{
    match n {
        YamlNode::Leaf(i) => YamlTree::Leaf(i),
        YamlNode::Mapping(v) => YamlTree::Mapping(entries_of(v@)),
    }
}

pub open spec fn entries_of(s: Seq<(Option<String>, YamlNode)>) -> Seq<(Option<Seq<char>>, YamlTree)>
    decreases s,
{
    if s.len() == 0 {
        Seq::empty()
    } else {
        entries_of(s.drop_last()).push((key_of(s.last().0), tree_of(s.last().1)))
    }
}

pub open spec fn tree_keys(entries: Seq<(Option<Seq<char>>, YamlTree)>) -> Seq<Option<Seq<char>>> {
    entries.map_values(|e: (Option<Seq<char>>, YamlTree)| e.0)
}

/// `over` merged onto `base`: two maps merge entry by entry, anything else
/// is replaced by `over`.
pub open spec fn merged(base: YamlTree, over: YamlTree) -> YamlTree
    decreases over,
{
    match over {
        YamlTree::Mapping(o) => match base {
            YamlTree::Mapping(b) => YamlTree::Mapping(merged_entries(b, o)),
            YamlTree::Leaf(_) => over,
        },
        YamlTree::Leaf(_) => over,
    }
}

/// The entries `os` merged, in order, onto `acc`: an entry whose string key
/// `acc` already has merges into that entry's value; any other goes last.
pub open spec fn merged_entries(
    acc: Seq<(Option<Seq<char>>, YamlTree)>,
    os: Seq<(Option<Seq<char>>, YamlTree)>,
) -> Seq<(Option<Seq<char>>, YamlTree)>
    decreases os,
{
    if os.len() == 0 {
        acc
    } else {
        let prev = merged_entries(acc, os.drop_last());
        let e = os.last();
        match e.0 {
            Some(k) => match first_index(tree_keys(prev), Some(k)) {
                Some(j) => prev.update(j, (prev[j].0, merged(prev[j].1, e.1))),
                None => prev.push(e),
            },
            None => prev.push(e),
        }
    }
}

proof fn lemma_entries_of(s: Seq<(Option<String>, YamlNode)>)
    ensures
        entries_of(s).len() == s.len(),
        forall|i: int| 0 <= i < s.len() ==> #[trigger] entries_of(s)[i] == (key_of(s[i].0), tree_of(s[i].1)),
    decreases s.len(),
{
    if s.len() > 0 {
        lemma_entries_of(s.drop_last());
    }
}

proof fn lemma_entries_ext(s: Seq<(Option<String>, YamlNode)>, t: Seq<(Option<Seq<char>>, YamlTree)>)
    requires
        s.len() == t.len(),
        forall|i: int| 0 <= i < s.len() ==> (key_of(s[i].0), tree_of(s[i].1)) == #[trigger] t[i],
    ensures
        entries_of(s) == t,
{
    lemma_entries_of(s);
    assert(entries_of(s) =~= t);
}

fn find_key(entries: &Vec<(Option<String>, YamlNode)>, key: &String) -> (r: Option<usize>)
    ensures
        r matches Some(x) ==> x < entries@.len() && first_index(tree_keys(entries_of(entries@)), Some(key@)) == Some(
            x as int,
        ),
        r is None ==> first_index(tree_keys(entries_of(entries@)), Some(key@)) is None,
{
    let ghost keys = tree_keys(entries_of(entries@));
    proof {
        lemma_entries_of(entries@);
        lemma_first_index(keys, Some(key@));
        assert forall|k: int| 0 <= k < entries@.len() implies keys[k] == key_of(#[trigger] entries@[k].0) by {
            assert(entries_of(entries@)[k] == (key_of(entries@[k].0), tree_of(entries@[k].1)));
        }
    }
    let mut j: usize = 0;
    while j < entries.len()
        invariant
            j <= entries@.len(),
            keys == tree_keys(entries_of(entries@)),
            keys.len() == entries@.len(),
            forall|k: int| 0 <= k < entries@.len() ==> keys[k] == key_of(#[trigger] entries@[k].0),
            forall|k: int| 0 <= k < j ==> keys[k] != Some(key@),
        decreases entries@.len() - j,
    {
        let hit = match &entries[j].0 {
            Some(t) => *t == *key,
            None => false,
        };
        if hit {
            proof {
                lemma_first_index(keys, Some(key@));
                assert(entries@[j as int].0 matches Some(t) && t@ == key@);
                assert(keys[j as int] == key_of(entries@[j as int].0));
                assert(keys[j as int] == Some(key@));
                let f = first_index(keys, Some(key@));
                assert(f is Some);
                let q = f->Some_0;
                if q < j {
                    assert(keys[q] != Some(key@));
                }
                if q > j {
                    assert(keys[j as int] != Some(key@));
                }
                assert(f == Some(j as int));
            }
            return Some(j);
        }
        j = j + 1;
    }
    proof {
        lemma_first_index(keys, Some(key@));
        if let Some(q) = first_index(keys, Some(key@)) {
            assert(keys[q] == Some(key@));
        }
    }
    None
}

/// `over` merged onto `base` (see [`merged`]).
pub fn merge_nodes(base: YamlNode, over: YamlNode) -> (r: YamlNode)
    ensures
        tree_of(r) == merged(tree_of(base), tree_of(over)),
    decreases over,
{
    let ghost over0 = over;
    let ghost base0 = base;
    match over {
        YamlNode::Leaf(i) => YamlNode::Leaf(i),
        YamlNode::Mapping(o) => match base {
            YamlNode::Leaf(_) => YamlNode::Mapping(o),
            YamlNode::Mapping(b) => {
                let ghost o0 = o@;
                let ghost ot = entries_of(o@);
                let ghost bt = entries_of(b@);
                let n = o.len();
                let mut acc = b;
                let mut rest = o;
                let mut i: usize = 0;
                proof {
                    lemma_entries_of(o0);
                    assert(o0.skip(0) =~= o0);
                    assert(ot.take(0) =~= Seq::<(Option<Seq<char>>, YamlTree)>::empty());
                }
                while rest.len() > 0
                    invariant
                        i <= o0.len(),
                        rest@ == o0.skip(i as int),
                        ot == entries_of(o0),
                        ot.len() == o0.len(),
                        forall|k: int| 0 <= k < o0.len() ==> #[trigger] ot[k] == (key_of(o0[k].0), tree_of(o0[k].1)),
                        entries_of(acc@) == merged_entries(bt, ot.take(i as int)),
                        over0 == YamlNode::Mapping(o),
                        over0 == over,
                        o@ == o0,
                        n == o0.len(),
                    decreases rest@.len(),
                {
                    proof {
                        assert(rest@.len() == o0.len() - i);
                        assert(i < o0.len());
                        assert(ot.take(i as int + 1).drop_last() =~= ot.take(i as int));
                        assert(ot.take(i as int + 1).last() == ot[i as int]);
                    }
                    let (k, v) = rest.remove(0);
                    proof {
                        assert(o0.skip(i as int + 1) =~= o0.skip(i as int).drop_first());
                        assert((k, v) == o0[i as int]);
                        let ov = over0->Mapping_0;
                        assert(decreases_to!(over0 => over0->Mapping_0));
                        assert(decreases_to!(ov => ov@));
                        assert(decreases_to!(ov@ => ov@[i as int]));
                        assert(decreases_to!(ov@[i as int] => ov@[i as int].1));
                        assert(decreases_to!(over0 => v));
                        assert(decreases_to!(over => v));
                    }
                    let ghost prev = entries_of(acc@);
                    let ghost acc_before = acc@;
                    let pos = match &k {
                        Some(s) => find_key(&acc, s),
                        None => None,
                    };
                    match pos {
                        Some(j) => {
                            let (bk, bv) = acc.remove(j);
                            let m = merge_nodes(bv, v);
                            acc.insert(j, (bk, m));
                            proof {
                                lemma_entries_of(acc_before);
                                assert(acc@ =~= acc_before.update(j as int, (bk, m)));
                                lemma_entries_ext(acc@, prev.update(j as int, (prev[j as int].0, merged(prev[j as int].1, tree_of(v)))));
                            }
                        },
                        None => {
                            acc.push((k, v));
                            proof {
                                assert(acc@.drop_last() =~= acc_before);
                            }
                        },
                    }
                    i = i + 1;
                }
                proof {
                    assert(ot.take(i as int) =~= ot);
                }
                YamlNode::Mapping(acc)
            },
        },
    }
}

/// `u8::is_ascii_whitespace`: space, tab, line feed, form feed, carriage return.
pub open spec fn ascii_whitespace(b: u8) -> bool {
    b == 32 || b == 9 || b == 10 || b == 12 || b == 13
}

/// Whether the overrides are empty or ASCII whitespace only.
pub fn overrides_are_blank(bytes: &[u8]) -> (r: bool)
    ensures
        r == (forall|i: int| 0 <= i < bytes@.len() ==> ascii_whitespace(#[trigger] bytes@[i])),
{
    let mut i: usize = 0;
    while i < bytes.len()
        invariant
            i <= bytes@.len(),
            forall|k: int| 0 <= k < i ==> ascii_whitespace(#[trigger] bytes@[k]),
        decreases bytes@.len() - i,
    {
        let b = bytes[i];
        if !(b == 32 || b == 9 || b == 10 || b == 12 || b == 13) {
            return false;
        }
        i = i + 1;
    }
    true
}

#[verifier::external_type_specification]
#[verifier::external_body]
pub struct ExYamlValue(serde_yaml::Value);

#[verifier::external_type_specification]
#[verifier::external_body]
pub struct ExYamlError(serde_yaml::Error);

/// Whether `serde_yaml::from_slice` reads `bytes` as a `serde_yaml::Value`.
pub uninterp spec fn yaml_document_parses(bytes: Seq<u8>) -> bool;

/// Calls `serde_yaml::from_slice` for a `serde_yaml::Value`. Claimed: whether
/// it succeeds is `yaml_document_parses` of the bytes, a function of the
/// bytes alone. The parsed value itself is not described.
#[verifier::external_body]
fn yaml_value_from_slice(bytes: &[u8]) -> (r: Result<serde_yaml::Value, serde_yaml::Error>)
    ensures
        r is Ok <==> yaml_document_parses(bytes@),
{
    serde_yaml::from_slice(bytes)
}

/// The text of a `serde_yaml::Error` (its `Display`). Nothing is claimed of it.
#[verifier::external_body]
fn yaml_error_text(e: &serde_yaml::Error) -> (r: String) {
    e.to_string()
}

/// `serde_yaml::Error::location`, as its line and column. Nothing is claimed
/// of it.
#[verifier::external_body]
fn yaml_error_location(e: &serde_yaml::Error) -> (r: Option<(usize, usize)>) {
    e.location().map(|l| (l.line(), l.column()))
}

/// Read sparse overrides: `None` when they are blank, else the parsed
/// document when serde_yaml reads it, else a parse error whose message
/// begins `config_overrides_yaml: `.
pub fn parse_overrides(bytes: &[u8]) -> (r: Result<Option<serde_yaml::Value>, ConfigError>)
    ensures
        (forall|i: int| 0 <= i < bytes@.len() ==> ascii_whitespace(#[trigger] bytes@[i])) <==> r matches Ok(None),
        !(forall|i: int| 0 <= i < bytes@.len() ==> ascii_whitespace(#[trigger] bytes@[i])) ==> (r is Ok
            <==> yaml_document_parses(bytes@)),
        r matches Err(e) ==> (e matches ConfigError::Parse { message, .. } && "config_overrides_yaml: "@.is_prefix_of(
            message@,
        )),
{
    if overrides_are_blank(bytes) {
        return Ok(None);
    }
    match yaml_value_from_slice(bytes) {
        Ok(v) => Ok(Some(v)),
        Err(e) => {
            let text = yaml_error_text(&e);
            let mut message = String::from_str("config_overrides_yaml: ");
            message.append(text.as_str());
            let (line, column) = match yaml_error_location(&e) {
                Some((l, c)) => (Some(l), Some(c)),
                None => (None, None),
            };
            proof {
                let p = "config_overrides_yaml: "@;
                assert(message@.subrange(0, p.len() as int) =~= p);
            }
            Err(ConfigError::Parse { message, line, column })
        },
    }
}

} // verus!
