//! Where the files of an extension are: in a directory that its developer registered, or among the
//! installed extensions.

use std::path::PathBuf;
use vstd::prelude::*;

verus! {

/// A path of the operating system.
#[verifier::external_type_specification]
#[verifier::external_body]
pub struct ExPathBuf(PathBuf);

/// `PathBuf::clone` gives the same path.
pub assume_specification[ <PathBuf as Clone>::clone ](path: &PathBuf) -> (r: PathBuf)
    ensures
        r == *path,
;

/// Whether no two entries are for the same id.
pub open spec fn distinct_ids(entries: Seq<(String, PathBuf)>) -> bool {
    forall|i: int, j: int|
        0 <= i < j < entries.len() ==> (#[trigger] entries[i]).0@ != (#[trigger] entries[j]).0@
}

/// The directories that some entries give, by id.
pub open spec fn entries_map(entries: Seq<(String, PathBuf)>) -> Map<Seq<char>, PathBuf>
    decreases entries.len(),
{
    if entries.len() == 0 {
        Map::empty()
    } else {
        entries_map(entries.drop_last()).insert(entries.last().0@, entries.last().1)
    }
}

/// The ids of the map are those of the entries, and each gives the directory of its entry.
proof fn lemma_entries_map(entries: Seq<(String, PathBuf)>)
    requires
        distinct_ids(entries),
    ensures
        forall|id: Seq<char>| #[trigger]
            entries_map(entries).contains_key(id) <==> exists|i: int|
                0 <= i < entries.len() && (#[trigger] entries[i]).0@ == id,
        forall|i: int|
            0 <= i < entries.len() ==> entries_map(entries)[(#[trigger] entries[i]).0@]
                == entries[i].1,
    decreases entries.len(),
{
    if entries.len() > 0 {
        let front = entries.drop_last();
        let n = entries.len() - 1;
        assert forall|i: int, j: int| 0 <= i < j < front.len() implies (#[trigger] front[i]).0@ != (
        #[trigger] front[j]).0@ by {
            assert(front[i] == entries[i] && front[j] == entries[j]);
        }
        lemma_entries_map(front);
        let all = entries_map(entries);
        assert forall|id: Seq<char>| #[trigger] all.contains_key(id) <==> exists|i: int|
            0 <= i < entries.len() && (#[trigger] entries[i]).0@ == id by {
            if entries_map(front).contains_key(id) {
                let i = choose|i: int| 0 <= i < front.len() && (#[trigger] front[i]).0@ == id;
                assert(entries[i] == front[i]);
            }
            if exists|i: int| 0 <= i < entries.len() && (#[trigger] entries[i]).0@ == id {
                let i = choose|i: int| 0 <= i < entries.len() && (#[trigger] entries[i]).0@ == id;
                if i < n {
                    assert(front[i] == entries[i]);
                }
            }
        }
        assert forall|i: int| 0 <= i < entries.len() implies all[(#[trigger] entries[i]).0@]
            == entries[i].1 by {
            if i < n {
                assert(front[i] == entries[i]);
                assert(entries[i].0@ != entries[n].0@);
            }
        }
    }
}

/// The directory that a table gives for `id`, if any.
pub open spec fn lookup(dirs: Map<Seq<char>, PathBuf>, id: Seq<char>) -> Option<PathBuf> {
    if dirs.contains_key(id) {
        Some(dirs[id])
    } else {
        None
    }
}

/// The source directories of the extensions under development, by extension id. Installed
/// extensions are not in it.
pub struct DevExtensionDirs {
    entries: Vec<(String, PathBuf)>,
}

impl View for DevExtensionDirs {
    type V = Map<Seq<char>, PathBuf>;

    closed spec fn view(&self) -> Map<Seq<char>, PathBuf> {
        entries_map(self.entries@)
    }
}

impl DevExtensionDirs {
    #[verifier::type_invariant]
    spec fn ids_are_distinct(self) -> bool {
        distinct_ids(self.entries@)
    }

    /// An empty table.
    pub fn new() -> (dirs: Self)
        ensures
            dirs@ == Map::<Seq<char>, PathBuf>::empty(),
    {
        DevExtensionDirs { entries: Vec::new() }
    }

    /// The position of the entry for `id`.
    fn position(&self, id: &str) -> (r: Option<usize>)
        ensures
            match r {
                Some(i) => i < self.entries@.len() && self.entries@[i as int].0@ == id@,
                None => forall|i: int|
                    0 <= i < self.entries@.len() ==> (#[trigger] self.entries@[i]).0@ != id@,
            },
    {
        let mut i: usize = 0;
        while i < self.entries.len()
            invariant
                i <= self.entries@.len(),
                forall|j: int| 0 <= j < i ==> (#[trigger] self.entries@[j]).0@ != id@,
            decreases self.entries@.len() - i,
        {
            if *self.entries[i].0.as_str() == *id {
                return Some(i);
            }
            i = i + 1;
        }
        None
    }

    /// The directory registered for `id`.
    pub fn get(&self, id: &str) -> (r: Option<PathBuf>)
        ensures
            r == lookup(self@, id@),
    {
        proof {
            use_type_invariant(self);
            lemma_entries_map(self.entries@);
        }
        match self.position(id) {
            Some(i) => Some(self.entries[i].1.clone()),
            None => None,
        }
    }

    /// Registers a directory for `id`, in place of the one registered before.
    pub fn insert(&mut self, id: String, dir: PathBuf)
        ensures
            final(self)@ == old(self)@.insert(id@, dir),
    {
        proof {
            use_type_invariant(&*self);
            lemma_entries_map(self.entries@);
        }
        let found = self.position(id.as_str());
        let mut entries: Vec<(String, PathBuf)> = Vec::new();
        std::mem::swap(&mut entries, &mut self.entries);
        let ghost before = entries@;
        match found {
            Some(i) => {
                entries.set(i, (id, dir));
                proof {
                    assert forall|k: int| 0 <= k < before.len() implies (#[trigger] entries@[k]).0@
                        == before[k].0@ by {}
                    assert(distinct_ids(entries@));
                    lemma_entries_map(entries@);
                    lemma_same_ids(before, entries@);
                    assert(entries_map(entries@) =~= entries_map(before).insert(id@, dir)) by {
                        assert(entries@[i as int].0@ == id@);
                        assert forall|key: Seq<char>|
                            entries_map(before).contains_key(key) && key != id@ implies #[trigger]
                            entries_map(entries@)[key] == entries_map(before)[key] by {
                            let k = choose|k: int|
                                0 <= k < before.len() && (#[trigger] before[k]).0@ == key;
                            assert(entries@[k] == before[k]);
                        }
                    }
                }
            },
            None => {
                entries.push((id, dir));
                proof {
                    assert(entries@.drop_last() =~= before);
                    assert forall|i: int, j: int| 0 <= i < j < entries@.len() implies (
                    #[trigger] entries@[i]).0@ != (#[trigger] entries@[j]).0@ by {
                        assert(entries@[i] == before[i]);
                        if j < before.len() {
                            assert(entries@[j] == before[j]);
                        }
                    }
                }
            },
        }
        self.entries = entries;
    }

    /// Takes the directory registered for `id` out of the table.
    pub fn remove(&mut self, id: &str)
        ensures
            final(self)@ == old(self)@.remove(id@),
    {
        proof {
            use_type_invariant(&*self);
            lemma_entries_map(self.entries@);
        }
        let found = self.position(id);
        let mut entries: Vec<(String, PathBuf)> = Vec::new();
        std::mem::swap(&mut entries, &mut self.entries);
        let ghost before = entries@;
        match found {
            Some(i) => {
                entries.remove(i);
                proof {
                    lemma_removed(before, i as int);
                }
            },
            None => {
                assert(entries_map(before) =~= entries_map(before).remove(id@));
            },
        }
        self.entries = entries;
    }

    /// Empties the table.
    pub fn clear(&mut self)
        ensures
            final(self)@ == Map::<Seq<char>, PathBuf>::empty(),
    {
        self.entries = Vec::new();
    }

    /// What the table holds now, as pairs of id and directory, each id once, in no particular
    /// order.
    pub fn snapshot(&self) -> (r: Vec<(String, PathBuf)>)
        ensures
            distinct_ids(r@),
            entries_map(r@) == self@,
    {
        proof {
            use_type_invariant(self);
        }
        let mut r: Vec<(String, PathBuf)> = Vec::new();
        let mut i: usize = 0;
        while i < self.entries.len()
            invariant
                i <= self.entries@.len(),
                r@ == self.entries@.take(i as int),
            decreases self.entries@.len() - i,
        {
            let id = self.entries[i].0.clone();
            let dir = self.entries[i].1.clone();
            r.push((id, dir));
            assert(r@ =~= self.entries@.take(i + 1));
            i = i + 1;
        }
        assert(r@ =~= self.entries@);
        r
    }
}

impl Default for DevExtensionDirs {
    fn default() -> (dirs: Self)
        ensures
            dirs@ == Map::<Seq<char>, PathBuf>::empty(),
    {
        DevExtensionDirs::new()
    }
}

/// Entries with the same ids give maps with the same ids.
proof fn lemma_same_ids(a: Seq<(String, PathBuf)>, b: Seq<(String, PathBuf)>)
    requires
        distinct_ids(a),
        distinct_ids(b),
        a.len() == b.len(),
        forall|k: int| 0 <= k < a.len() ==> (#[trigger] b[k]).0@ == a[k].0@,
    ensures
        forall|id: Seq<char>| #[trigger]
            entries_map(b).contains_key(id) <==> entries_map(a).contains_key(id),
{
    lemma_entries_map(a);
    lemma_entries_map(b);
    assert forall|id: Seq<char>| #[trigger]
        entries_map(b).contains_key(id) <==> entries_map(a).contains_key(id) by {
        if entries_map(b).contains_key(id) {
            let k = choose|k: int| 0 <= k < b.len() && (#[trigger] b[k]).0@ == id;
            assert(a[k].0@ == id);
        }
        if entries_map(a).contains_key(id) {
            let k = choose|k: int| 0 <= k < a.len() && (#[trigger] a[k]).0@ == id;
            assert(b[k].0@ == id);
        }
    }
}

/// Taking out one entry takes its id out of the map.
proof fn lemma_removed(entries: Seq<(String, PathBuf)>, i: int)
    requires
        distinct_ids(entries),
        0 <= i < entries.len(),
    ensures
        distinct_ids(entries.remove(i)),
        entries_map(entries.remove(i)) == entries_map(entries).remove(entries[i].0@),
{
    let rest = entries.remove(i);
    let id = entries[i].0@;
    assert forall|j: int, k: int| 0 <= j < k < rest.len() implies (#[trigger] rest[j]).0@ != (
    #[trigger] rest[k]).0@ by {
        let (x, y) = (
            if j < i {
                j
            } else {
                j + 1
            },
            if k < i {
                k
            } else {
                k + 1
            },
        );
        assert(rest[j] == entries[x] && rest[k] == entries[y]);
    }
    lemma_entries_map(entries);
    lemma_entries_map(rest);
    let (a, b) = (entries_map(rest), entries_map(entries).remove(id));
    assert forall|key: Seq<char>| #[trigger] a.contains_key(key) <==> b.contains_key(key) by {
        if a.contains_key(key) {
            let k = choose|k: int| 0 <= k < rest.len() && (#[trigger] rest[k]).0@ == key;
            let x = if k < i {
                k
            } else {
                k + 1
            };
            assert(rest[k] == entries[x]);
            assert(entries[x].0@ != entries[i].0@);
        }
        if b.contains_key(key) {
            let x = choose|x: int| 0 <= x < entries.len() && (#[trigger] entries[x]).0@ == key;
            let k = if x < i {
                x
            } else {
                x - 1
            };
            assert(rest[k] == entries[x]);
        }
    }
    assert forall|key: Seq<char>| #[trigger] a.contains_key(key) implies a[key] == b[key] by {
        let k = choose|k: int| 0 <= k < rest.len() && (#[trigger] rest[k]).0@ == key;
        let x = if k < i {
            k
        } else {
            k + 1
        };
        assert(rest[k] == entries[x]);
    }
    assert(a =~= b);
}

/// A directory that was registered is found under its id until it is replaced or taken out, and
/// neither touches what is registered for another id.
pub proof fn law_registrations_are_independent(
    dirs: Map<Seq<char>, PathBuf>,
    id: Seq<char>,
    dir: PathBuf,
    other: Seq<char>,
)
    ensures
        lookup(dirs.insert(id, dir), id) == Some(dir),
        lookup(dirs.remove(id), id) is None,
        other != id ==> lookup(dirs.insert(id, dir), other) == lookup(dirs, other),
        other != id ==> lookup(dirs.remove(id), other) == lookup(dirs, other),
        lookup(dirs, id) == Some(dir) <==> dirs.contains_key(id) && dirs[id] == dir,
        lookup(Map::empty(), id) is None,
{
}

/// What a snapshot lists is what is found under the ids, no more and no less, and each id once.
pub proof fn law_snapshot_lists_what_is_found(
    entries: Seq<(String, PathBuf)>,
    id: Seq<char>,
    dir: PathBuf,
)
    requires
        distinct_ids(entries),
    ensures
        lookup(entries_map(entries), id) == Some(dir) <==> exists|i: int|
            0 <= i < entries.len() && (#[trigger] entries[i]).0@ == id && entries[i].1 == dir,
        forall|i: int, j: int|
            0 <= i < entries.len() && 0 <= j < entries.len() && i != j ==> (
            #[trigger] entries[i]).0@ != (#[trigger] entries[j]).0@,
{
    lemma_entries_map(entries);
}

/// The message for an extension that is not there.
pub open spec fn missing_message(id: Seq<char>) -> Seq<char> {
    "NOT_FOUND: 扩展 "@ + id + " 不存在"@
}

/// The message for an extension that is not there names it.
pub proof fn law_missing_message_names_the_extension(id: Seq<char>)
    ensures
        missing_message(id) == "NOT_FOUND: 扩展 "@ + id + " 不存在"@,
{
}

/// Decides where the files of extension `id` are. `dev` is the directory registered for it, if
/// there is one and it is a directory; it comes first. `installed` is its directory among the
/// installed extensions, if there is one, or the reason why those cannot be looked at.
pub fn resolve_ext_dir(
    id: &str,
    dev: Option<PathBuf>,
    installed: Result<Option<PathBuf>, String>,
) -> (r: Result<PathBuf, String>)
    ensures
        match (dev, installed) {
            (Some(dir), _) => r == Ok::<PathBuf, String>(dir),
            (None, Ok(Some(dir))) => r == Ok::<PathBuf, String>(dir),
            (None, Ok(None)) => r is Err && r->Err_0@ == missing_message(id@),
            (None, Err(reason)) => r is Err && r->Err_0 == reason,
        },
{
    match dev {
        Some(dir) => Ok(dir),
        None => match installed {
            Ok(Some(dir)) => Ok(dir),
            Ok(None) => {
                let mut message = String::new();
                message.append("NOT_FOUND: 扩展 ");
                message.append(id);
                message.append(" 不存在");
                assert(message@ =~= missing_message(id@));
                Err(message)
            },
            Err(reason) => Err(reason),
        },
    }
}

} // verus!
