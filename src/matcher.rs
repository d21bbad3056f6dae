use crate::config::{strings_view, Kind};
use vstd::prelude::*;
use vstd::string::{StrSliceExecFns, StringExecFns};

verus! {

/// The type of a directory entry as its listing reports it. Symbolic links
/// and special files are `Other`: they never match and are never descended into.
#[derive(Clone, Copy, Debug, PartialEq, Eq, Structural)]
pub enum EntryType {
    Directory,
    File,
    Other,
}

/// One child of a listed directory: its base name and its type.
#[derive(Clone, Debug, PartialEq)]
pub struct Entry {
    pub name: String,
    pub entry_type: EntryType,
}

/// What a listing says of one entry.
pub struct EntryView {
    pub name: Seq<char>,
    pub entry_type: EntryType,
}

impl View for Entry {
    type V = EntryView;

    open spec fn view(&self) -> EntryView {
        EntryView { name: self.name@, entry_type: self.entry_type }
    }
}

/// `i` is the position of the last `.` in `name`.
pub open spec fn is_final_dot(name: Seq<char>, i: int) -> bool {
    &&& 0 <= i < name.len()
    &&& name[i] == '.'
    &&& forall|j: int| i < j < name.len() ==> name[j] != '.'
}

/// The extension of a base name: what follows its last `.`, without the
/// dot; none where the name holds no `.`.
pub open spec fn extension_of(name: Seq<char>) -> Option<Seq<char>> {
    if exists|i: int| is_final_dot(name, i) {
        let i = choose|i: int| is_final_dot(name, i);
        Some(name.subrange(i + 1, name.len() as int))
    } else {
        None
    }
}

/// What a rule's patterns are compared with: a directory's base name under
/// a folder rule, a regular file's extension under a file rule.
pub open spec fn match_key(name: Seq<char>, entry_type: EntryType, kind: Kind) -> Option<Seq<char>> {
    match kind {
        Kind::Folder => if entry_type == EntryType::Directory {
            Some(name)
        } else {
            None
        },
        Kind::File => if entry_type == EntryType::File {
            extension_of(name)
        } else {
            None
        },
    }
}

/// An entry matches a rule when its key equals one of the patterns.
pub open spec fn is_match(name: Seq<char>, entry_type: EntryType, kind: Kind, patterns: Seq<Seq<char>>) -> bool {
    match match_key(name, entry_type, kind) {
        Some(key) => patterns.contains(key),
        None => false,
    }
}

proof fn lemma_final_dot_unique(name: Seq<char>, i: int, k: int)
    requires
        is_final_dot(name, i),
        is_final_dot(name, k),
    ensures
        i == k,
{
}

/// The extension of `name`, as an owned string.
pub fn extension(name: &str) -> (r: Option<String>)
    ensures
        r is Some <==> extension_of(name@) is Some,
        r is Some ==> r->0@ == extension_of(name@)->0,
{
    let len = name.unicode_len();
    let mut i: usize = len;
    while i > 0
        invariant
            i <= len == name@.len(),
            forall|j: int| i <= j < len ==> name@[j] != '.',
        decreases i,
    {
        if name.get_char(i - 1) == '.' {
            let ghost d = (i - 1) as int;
            assert(is_final_dot(name@, d));
            proof {
                let c = choose|c: int| is_final_dot(name@, c);
                lemma_final_dot_unique(name@, c, d);
            }
            return Some(String::from_str(name.substring_char(i, len)));
        }
        i = i - 1;
    }
    None
}

/// The position of the first pattern equal to `key`.
pub fn position(patterns: &Vec<String>, key: &String) -> (r: Option<usize>)
    ensures
        r is None <==> !strings_view(patterns@).contains(key@),
        r is Some ==> r->0 < patterns@.len() && patterns@[r->0 as int]@ == key@
            && forall|j: int| 0 <= j < r->0 ==> #[trigger] patterns@[j]@ != key@,
{
    let mut i: usize = 0;
    while i < patterns.len()
        invariant
            i <= patterns@.len(),
            forall|j: int| 0 <= j < i ==> patterns@[j]@ != key@,
        decreases patterns@.len() - i,
    {
        if patterns[i] == *key {
            assert(strings_view(patterns@)[i as int] == key@);
            return Some(i);
        }
        i = i + 1;
    }
    proof {
        if strings_view(patterns@).contains(key@) {
            let k = choose|k: int| 0 <= k < strings_view(patterns@).len() && strings_view(patterns@)[k] == key@;
            assert(patterns@[k]@ == key@);
        }
    }
    None
}

/// Decides whether `entry` matches a rule of the given kind and patterns,
/// and where it does, gives the position of the first equal pattern.
pub fn pattern_check(entry: &Entry, patterns: &Vec<String>, kind: &Kind) -> (r: Option<usize>)
    ensures
        *kind == Kind::Folder ==> (r is Some <==> entry.entry_type == EntryType::Directory
            && strings_view(patterns@).contains(entry.name@)),
        *kind == Kind::File ==> (r is Some <==> entry.entry_type == EntryType::File
            && extension_of(entry.name@) is Some
            && strings_view(patterns@).contains(extension_of(entry.name@)->0)),
        r is Some <==> is_match(entry.name@, entry.entry_type, *kind, strings_view(patterns@)),
        r is Some ==> r->0 < patterns@.len()
            && patterns@[r->0 as int]@ == match_key(entry.name@, entry.entry_type, *kind)->0
            && forall|j: int| 0 <= j < r->0 ==> #[trigger] patterns@[j]@ != patterns@[r->0 as int]@,
{
    match kind {
        Kind::Folder => {
            if entry.entry_type == EntryType::Directory {
                position(patterns, &entry.name)
            } else {
                None
            }
        },
        Kind::File => {
            if entry.entry_type == EntryType::File {
                match extension(entry.name.as_str()) {
                    Some(ext) => position(patterns, &ext),
                    None => None,
                }
            } else {
                None
            }
        },
    }
}

} // verus!
