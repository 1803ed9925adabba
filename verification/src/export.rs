//! The decisions behind the export of fragments as tags: into which files
//! the fragments of the observations go, how the files are named, which
//! fragments are written, and which cut sites a fragment contributes.

use vstd::prelude::*;
use vstd::string::*;
use crate::peak::Strand;
use crate::text::push_char;

verus! {

/// The number of observations, of groups and of replicates do not agree.
#[derive(Debug, Clone, Copy, PartialEq, Eq, Structural)]
pub struct LengthsDiffer;

/// A group and a replicate, as models of their names.
pub type KeyView = (Seq<char>, Seq<char>);

/// The models of a list of names.
pub open spec fn name_views(names: Seq<String>) -> Seq<Seq<char>> {
    Seq::new(names.len(), |i: int| names[i]@)
}

/// The models of a list of keys.
pub open spec fn key_views(keys: Seq<(String, String)>) -> Seq<KeyView> {
    Seq::new(keys.len(), |i: int| (keys[i].0@, keys[i].1@))
}

/// The replicates, as a model.
pub open spec fn optional_names(names: Option<&Vec<String>>) -> Option<Seq<Seq<char>>> {
    match names {
        Some(v) => Some(name_views(v@)),
        None => None,
    }
}

/// There is one group per observation, and one replicate per observation
/// where replicates are given.
pub open spec fn lengths_agree(
    n_obs: int,
    group_by: Seq<Seq<char>>,
    replicates: Option<Seq<Seq<char>>>,
) -> bool {
    n_obs == group_by.len() && (replicates matches Some(r) ==> r.len() == group_by.len())
}

/// The key of each observation: its group with its replicate, or with the
/// empty name where no replicates are given.
pub open spec fn paired(group_by: Seq<Seq<char>>, replicates: Option<Seq<Seq<char>>>) -> Seq<
    KeyView,
> {
    Seq::new(
        group_by.len(),
        |i: int|
            (
                group_by[i],
                match replicates {
                    Some(r) => r[i],
                    None => Seq::empty(),
                },
            ),
    )
}

/// Pairs the group of each observation with its replicate. Fails exactly
/// when the lengths do not agree.
pub fn export_keys(n_obs: usize, group_by: &Vec<String>, replicates: Option<&Vec<String>>) -> (r:
    Result<Vec<(String, String)>, LengthsDiffer>)
    ensures
        match r {
            Ok(keys) => lengths_agree(
                n_obs as int,
                name_views(group_by@),
                optional_names(replicates),
            ) && key_views(keys@) == paired(name_views(group_by@), optional_names(replicates)),
            Err(_) => !lengths_agree(
                n_obs as int,
                name_views(group_by@),
                optional_names(replicates),
            ),
        },
{
    if n_obs != group_by.len() {
        return Err(LengthsDiffer);
    }
    match replicates {
        Some(rep) => {
            if rep.len() != group_by.len() {
                return Err(LengthsDiffer);
            }
        },
        None => {},
    }
    let mut keys: Vec<(String, String)> = Vec::new();
    let mut i: usize = 0;
    while i < group_by.len()
        invariant
            i <= group_by.len(),
            replicates matches Some(rep) ==> rep.len() == group_by.len(),
            keys.len() == i,
            forall|k: int|
                0 <= k < i ==> ((#[trigger] keys[k]).0@, keys[k].1@) == paired(
                    name_views(group_by@),
                    optional_names(replicates),
                )[k],
        decreases group_by.len() - i,
    {
        let second = match replicates {
            Some(rep) => rep[i].clone(),
            None => String::new(),
        };
        keys.push((group_by[i].clone(), second));
        i += 1;
    }
    assert(key_views(keys@) =~= paired(name_views(group_by@), optional_names(replicates)));
    Ok(keys)
}

/// The group of `key` is among the selected groups, or no selection is
/// made.
pub open spec fn is_selected(key: KeyView, selections: Option<Seq<Seq<char>>>) -> bool {
    match selections {
        Some(s) => s.contains(key.0),
        None => true,
    }
}

/// The keys that get a file: the distinct selected keys, in the order in
/// which they first occur.
pub open spec fn file_keys(keys: Seq<KeyView>, selections: Option<Seq<Seq<char>>>) -> Seq<KeyView>
    decreases keys.len(),
{
    if keys.len() == 0 {
        Seq::empty()
    } else {
        let before = file_keys(keys.drop_last(), selections);
        if is_selected(keys.last(), selections) && !before.contains(keys.last()) {
            before.push(keys.last())
        } else {
            before
        }
    }
}

/// `file_keys` lists each selected key once, and nothing else.
pub proof fn lemma_file_keys(keys: Seq<KeyView>, selections: Option<Seq<Seq<char>>>)
    ensures
        file_keys(keys, selections).no_duplicates(),
        forall|k: KeyView| #[trigger]
            file_keys(keys, selections).contains(k) <==> keys.contains(k) && is_selected(
                k,
                selections,
            ),
    decreases keys.len(),
{
    if keys.len() > 0 {
        let t = keys.drop_last();
        let before = file_keys(t, selections);
        lemma_file_keys(t, selections);
        assert forall|k: KeyView| #[trigger]
            file_keys(keys, selections).contains(k) <==> keys.contains(k) && is_selected(
                k,
                selections,
            ) by {
            let now = file_keys(keys, selections);
            if now.contains(k) {
                let i = choose|i: int| 0 <= i < now.len() && now[i] == k;
                if i < before.len() {
                    assert(before.contains(k));
                    let j = choose|j: int| 0 <= j < t.len() && t[j] == k;
                    assert(keys[j] == k);
                } else {
                    assert(keys[keys.len() - 1] == k);
                }
            }
            if keys.contains(k) && is_selected(k, selections) {
                let j = choose|j: int| 0 <= j < keys.len() && keys[j] == k;
                if j < t.len() {
                    assert(t[j] == k);
                }
                if before.contains(k) {
                    let i = choose|i: int| 0 <= i < before.len() && before[i] == k;
                    assert(now[i] == k);
                } else {
                    assert(now[before.len() as int] == k);
                }
            }
        }
    }
}

/// Whether `name` is among `names`.
fn has_name(names: &Vec<String>, name: &String) -> (r: bool)
    ensures
        r == name_views(names@).contains(name@),
{
    let mut i: usize = 0;
    while i < names.len()
        invariant
            i <= names.len(),
            forall|k: int| 0 <= k < i ==> name_views(names@)[k] != name@,
        decreases names.len() - i,
    {
        if names[i] == *name {
            assert(name_views(names@)[i as int] == name@);
            return true;
        }
        i += 1;
    }
    false
}

/// Whether `key` is among `keys`.
fn has_key(keys: &Vec<(String, String)>, key: &(String, String)) -> (r: bool)
    ensures
        r == key_views(keys@).contains((key.0@, key.1@)),
{
    let mut i: usize = 0;
    while i < keys.len()
        invariant
            i <= keys.len(),
            forall|k: int| 0 <= k < i ==> key_views(keys@)[k] != (key.0@, key.1@),
        decreases keys.len() - i,
    {
        if keys[i].0 == key.0 && keys[i].1 == key.1 {
            assert(key_views(keys@)[i as int] == (key.0@, key.1@));
            return true;
        }
        i += 1;
    }
    false
}

/// Picks the keys that get a file: every key once, in the order in which
/// the keys first occur, and only keys of selected groups where a selection
/// is made.
pub fn export_files(keys: &Vec<(String, String)>, selections: Option<&Vec<String>>) -> (files: Vec<
    (String, String),
>)
    ensures
        key_views(files@) == file_keys(key_views(keys@), optional_names(selections)),
{
    let ghost s = key_views(keys@);
    let ghost sel = optional_names(selections);
    let mut files: Vec<(String, String)> = Vec::new();
    let mut i: usize = 0;
    assert(key_views(files@) =~= file_keys(s.take(0), sel));
    while i < keys.len()
        invariant
            i <= keys.len(),
            s == key_views(keys@),
            sel == optional_names(selections),
            key_views(files@) == file_keys(s.take(i as int), sel),
        decreases keys.len() - i,
    {
        proof {
            assert(s.take(i + 1).drop_last() =~= s.take(i as int));
            assert(s.take(i + 1).last() == (keys[i as int].0@, keys[i as int].1@));
        }
        let ghost before = key_views(files@);
        let selected = match selections {
            Some(names) => has_name(names, &keys[i].0),
            None => true,
        };
        if selected && !has_key(&files, &keys[i]) {
            files.push((keys[i].0.clone(), keys[i].1.clone()));
            assert(key_views(files@) =~= before.push(s[i as int]));
        }
        i += 1;
    }
    assert(s.take(i as int) =~= s);
    files
}

/// A name with every `/` replaced by `+`.
pub open spec fn sanitized(name: Seq<char>) -> Seq<char> {
    Seq::new(
        name.len(),
        |i: int|
            if name[i] == '/' {
                '+'
            } else {
                name[i]
            },
    )
}

/// The name of the file of a key: group and replicate, each with `/`
/// replaced by `+`, joined by `_` and followed by `.zst`.
pub open spec fn file_name_of(group: Seq<char>, replicate: Seq<char>) -> Seq<char> {
    sanitized(group) + "_"@ + sanitized(replicate) + ".zst"@
}

/// Appends `name` to `out`, with every `/` replaced by `+`.
fn append_sanitized(out: &mut String, name: &String)
    ensures
        final(out)@ == old(out)@ + sanitized(name@),
{
    let ghost start = out@;
    let text = name.as_str();
    let n = text.unicode_len();
    let mut i: usize = 0;
    assert(out@ =~= start + sanitized(name@).take(0));
    while i < n
        invariant
            i <= n,
            n == name@.len(),
            text@ == name@,
            out@ == start + sanitized(name@).take(i as int),
        decreases n - i,
    {
        let c = text.get_char(i);
        let ghost before = out@;
        if c == '/' {
            push_char(out, '+');
        } else {
            push_char(out, c);
        }
        assert(out@ =~= start + sanitized(name@).take(i + 1));
        i += 1;
    }
    assert(sanitized(name@).take(i as int) =~= sanitized(name@));
}

/// Names the file that takes the fragments of a key.
pub fn tag_file_name(group: &String, replicate: &String) -> (name: String)
    ensures
        name@ == file_name_of(group@, replicate@),
{
    let mut name = String::new();
    assert(name@ + sanitized(group@) =~= sanitized(group@));
    append_sanitized(&mut name, group);
    name.append("_");
    append_sanitized(&mut name, replicate);
    name.append(".zst");
    name
}

/// Whether a fragment is written: one whose strand is known always, any
/// other unless it is longer than the largest size allowed.
pub open spec fn is_exported(stranded: bool, length: u64, max_frag_size: Option<u64>) -> bool {
    stranded || match max_frag_size {
        Some(s) => s >= length,
        None => true,
    }
}

/// Decides whether a fragment of the given length is written.
pub fn keep_fragment(stranded: bool, length: u64, max_frag_size: Option<u64>) -> (r: bool)
    ensures
        r == is_exported(stranded, length, max_frag_size),
{
    stranded || match max_frag_size {
        Some(s) => s >= length,
        None => true,
    }
}

/// The cut sites of a fragment, each with the strand it is counted on (0 for
/// the forward strand, 1 for the reverse strand): a fragment on the forward
/// strand gives its start, one on the reverse strand its last position, and
/// one of unknown strand both.
pub open spec fn tags_of(start: u64, end: u64, strand: Option<Strand>) -> Seq<(u64, u8)> {
    match strand {
        None => seq![(start, 0u8), ((end - 1) as u64, 1u8)],
        Some(Strand::Forward) => seq![(start, 0u8)],
        Some(Strand::Reverse) => seq![((end - 1) as u64, 1u8)],
    }
}

/// Lists the cut sites of a fragment. A fragment that contributes its last
/// position must have one: its end is not 0.
pub fn fragment_tags(start: u64, end: u64, strand: Option<Strand>) -> (tags: Vec<(u64, u8)>)
    requires
        strand != Some(Strand::Forward) ==> end > 0,
    ensures
        tags@ == tags_of(start, end, strand),
{
    let mut tags: Vec<(u64, u8)> = Vec::new();
    match strand {
        None => {
            tags.push((start, 0));
            tags.push((end - 1, 1));
        },
        Some(Strand::Forward) => {
            tags.push((start, 0));
        },
        Some(Strand::Reverse) => {
            tags.push((end - 1, 1));
        },
    }
    assert(tags@ =~= tags_of(start, end, strand));
    tags
}

} // verus!
