//! The catalog: collections of clips, and the playback policy of each kind
//! of collection.
use vstd::prelude::*;
use vstd::utf8::encode_utf8;

verus! {

/// The identifier that hashing a path gives.
pub uninterp spec fn path_hash(path: Seq<char>) -> u64;

/// The last component of a path, where it names a file or directory.
pub uninterp spec fn path_file_name(path: Seq<char>) -> Option<Seq<char>>;

/// Relies on std's `DefaultHasher` (built by `BuildHasherDefault`, fed by
/// `BuildHasher::hash_one`) over a `Path`: every `DefaultHasher` made by
/// `new` or `default` is the same, so the hash depends on the path alone
/// (within one build; std may change the algorithm between releases).
#[verifier::external_body]
fn hash_path(path: &str) -> (r: u64)
    ensures
        r == path_hash(path@),
{
    std::hash::BuildHasher::hash_one(
        &std::hash::BuildHasherDefault::<std::collections::hash_map::DefaultHasher>::default(),
        std::path::Path::new(path),
    )
}

/// Relies on `Path::file_name` for the last component of a path; it is read
/// back as UTF-8, which a name cut from a `str` always is.
#[verifier::external_body]
fn file_name(path: &str) -> (r: Option<String>)
    ensures
        match r {
            Some(n) => path_file_name(path@) == Some(n@),
            None => path_file_name(path@) is None,
        },
{
    std::path::Path::new(path).file_name().map(|n| n.to_string_lossy().into_owned())
}

/// The name shown for a file or directory: its last path component.
pub open spec fn display_name(path: Seq<char>) -> Seq<char> {
    match path_file_name(path) {
        Some(n) => n,
        None => "<unknown>"@,
    }
}

fn display_name_of(path: &str) -> (r: String)
    ensures
        r@ == display_name(path@),
{
    match file_name(path) {
        Some(n) => n,
        None => "<unknown>".to_owned(),
    }
}

/// Byte-wise lexicographic order, the order of `String`.
pub open spec fn bytes_le(a: Seq<u8>, b: Seq<u8>) -> bool
    decreases a.len(),
{
    if a.len() == 0 {
        true
    } else if b.len() == 0 {
        false
    } else if a[0] != b[0] {
        a[0] < b[0]
    } else {
        bytes_le(a.drop_first(), b.drop_first())
    }
}

pub open spec fn name_bytes(c: Clip) -> Seq<u8> {
    encode_utf8(c.name@)
}

pub open spec fn sorted_by_name(s: Seq<Clip>) -> bool {
    forall|i: int, j: int| 0 <= i < j < s.len() ==> bytes_le(name_bytes(s[i]), name_bytes(s[j]))
}

pub open spec fn file_paths(files: Seq<String>) -> Seq<Seq<char>> {
    files.map_values(|f: String| f@)
}

pub open spec fn clip_paths(s: Seq<Clip>) -> Seq<Seq<char>> {
    s.map_values(|c: Clip| c.path@)
}

proof fn lemma_bytes_le_total(a: Seq<u8>, b: Seq<u8>)
    ensures
        bytes_le(a, b) || bytes_le(b, a),
    decreases a.len(),
{
    if a.len() > 0 && b.len() > 0 && a[0] == b[0] {
        lemma_bytes_le_total(a.drop_first(), b.drop_first());
    }
}

proof fn lemma_bytes_le_trans(a: Seq<u8>, b: Seq<u8>, c: Seq<u8>)
    requires
        bytes_le(a, b),
        bytes_le(b, c),
    ensures
        bytes_le(a, c),
    decreases a.len(),
{
    if a.len() > 0 && b.len() > 0 && c.len() > 0 && a[0] == b[0] && b[0] == c[0] {
        lemma_bytes_le_trans(a.drop_first(), b.drop_first(), c.drop_first());
    }
}

fn name_le(a: &Clip, b: &Clip) -> (r: bool)
    ensures
        r == bytes_le(name_bytes(*a), name_bytes(*b)),
{
    let x = a.name.as_str().as_bytes();
    let y = b.name.as_str().as_bytes();
    let mut i: usize = 0;
    assert(x@.skip(0) =~= x@);
    assert(y@.skip(0) =~= y@);
    while i < x.len() && i < y.len()
        invariant
            x@ == name_bytes(*a),
            y@ == name_bytes(*b),
            i <= x@.len(),
            i <= y@.len(),
            bytes_le(x@, y@) == bytes_le(x@.skip(i as int), y@.skip(i as int)),
        decreases x@.len() - i,
    {
        if x[i] != y[i] {
            return x[i] < y[i];
        }
        assert(x@.skip(i as int).drop_first() =~= x@.skip(i + 1));
        assert(y@.skip(i as int).drop_first() =~= y@.skip(i + 1));
        i = i + 1;
    }
    i == x.len()
}

/// `r` holds the clips of `s` in a new order: `r[i]` is `s[src[i]]`, each
/// position of `s` is used once, and clips of equal name keep the order
/// they have in `s`.
pub open spec fn rearranged(r: Seq<Clip>, s: Seq<Clip>, src: Seq<int>) -> bool {
    &&& r.len() == s.len()
    &&& src.len() == r.len()
    &&& forall|i: int| 0 <= i < r.len() ==> 0 <= #[trigger] src[i] < s.len() && r[i] == s[src[i]]
    &&& forall|i: int, j: int| 0 <= i < r.len() && 0 <= j < r.len() && i != j ==> src[i] != src[j]
    &&& forall|i: int, j: int|
        0 <= i < j < r.len() && name_bytes(r[i]) == name_bytes(r[j]) ==> src[i] < src[j]
}

/// The clips of `r` are the files at `paths` in a new order: `r[i]` is the
/// file at `paths[src[i]]`, each position is used once, and clips of equal
/// name keep the order of their files in `paths`.
pub open spec fn arranged_from(r: Seq<Clip>, paths: Seq<Seq<char>>, src: Seq<int>) -> bool {
    &&& r.len() == paths.len()
    &&& src.len() == r.len()
    &&& forall|i: int|
        0 <= i < r.len() ==> 0 <= #[trigger] src[i] < paths.len() && r[i].path@ == paths[src[i]]
    &&& forall|i: int, j: int| 0 <= i < r.len() && 0 <= j < r.len() && i != j ==> src[i] != src[j]
    &&& forall|i: int, j: int|
        0 <= i < j < r.len() && name_bytes(r[i]) == name_bytes(r[j]) ==> src[i] < src[j]
}

proof fn lemma_bytes_le_refl(a: Seq<u8>)
    ensures
        bytes_le(a, a),
    decreases a.len(),
{
    if a.len() > 0 {
        lemma_bytes_le_refl(a.drop_first());
    }
}

/// Orders clips by name, keeping every one; clips of equal name keep their
/// order.
fn sort_by_name(clips: Vec<Clip>) -> (r: Vec<Clip>)
    ensures
        sorted_by_name(r@),
        exists|src: Seq<int>| #[trigger] rearranged(r@, clips@, src),
{
    let ghost orig = clips@;
    let mut rem = clips;
    let mut out: Vec<Clip> = Vec::new();
    let ghost mut idx: Seq<int> = Seq::empty();
    assert(rem@ =~= orig.subrange(0, rem@.len() as int));
    while rem.len() > 0
        invariant
            sorted_by_name(out@),
            rem@.len() <= orig.len(),
            rem@ == orig.subrange(0, rem@.len() as int),
            out@.len() + rem@.len() == orig.len(),
            idx.len() == out@.len(),
            forall|i: int|
                0 <= i < out@.len() ==> rem@.len() <= #[trigger] idx[i] < orig.len() && out@[i]
                    == orig[idx[i]],
            forall|i: int, j: int| 0 <= i < out@.len() && 0 <= j < out@.len() && i != j ==> idx[i] != idx[j],
            forall|i: int, j: int|
                0 <= i < j < out@.len() && name_bytes(out@[i]) == name_bytes(out@[j]) ==> idx[i]
                    < idx[j],
        decreases rem@.len(),
    {
        let ghost rem0 = rem@;
        let ghost out0 = out@;
        let ghost idx0 = idx;
        let c = rem.pop().unwrap();
        assert(rem0 =~= rem@.push(c));
        assert(orig[rem@.len() as int] == c);
        assert(rem@ =~= orig.subrange(0, rem@.len() as int));
        let mut j: usize = 0;
        let mut found = false;
        while !found && j < out.len()
            invariant
                out@ == out0,
                j <= out@.len(),
                forall|k: int|
                    0 <= k < j ==> bytes_le(name_bytes(out@[k]), name_bytes(c)) && !bytes_le(
                        name_bytes(c),
                        name_bytes(out@[k]),
                    ),
                found ==> j < out@.len() && bytes_le(name_bytes(c), name_bytes(out@[j as int])),
            decreases out@.len() - j + if found {
                0int
            } else {
                1int
            },
        {
            if name_le(&out[j], &c) && !name_le(&c, &out[j]) {
                j = j + 1;
            } else {
                proof {
                    lemma_bytes_le_total(name_bytes(out@[j as int]), name_bytes(c));
                }
                found = true;
            }
        }
        out.insert(j, c);
        proof {
            idx = idx0.insert(j as int, rem@.len() as int);
            out0.insert_ensures(j as int, c);
            idx0.insert_ensures(j as int, rem@.len() as int);
            assert forall|a: int, b: int| 0 <= a < b < out@.len() implies bytes_le(
                name_bytes(out@[a]),
                name_bytes(out@[b]),
            ) by {
                if b == j {
                } else if a == j {
                    assert(found);
                    if b - 1 > j {
                        lemma_bytes_le_trans(
                            name_bytes(c),
                            name_bytes(out0[j as int]),
                            name_bytes(out0[b - 1]),
                        );
                    }
                } else if a < j && b > j {
                    assert(out@[b] == out0[b - 1]);
                } else if a > j {
                    assert(out@[a] == out0[a - 1]);
                    assert(out@[b] == out0[b - 1]);
                }
            }
            assert forall|i: int|
                0 <= i < out@.len() implies rem@.len() <= #[trigger] idx[i] < orig.len() && out@[i]
                == orig[idx[i]] by {
                if i < j {
                    assert(out@[i] == out0[i]);
                } else if i > j {
                    assert(out@[i] == out0[i - 1]);
                }
            }
            assert forall|a: int, b: int| 0 <= a < out@.len() && 0 <= b < out@.len() && a != b implies idx[a]
                != idx[b] by {
                if a != j && b != j {
                    let a0 = if a < j { a } else { a - 1 };
                    let b0 = if b < j { b } else { b - 1 };
                    assert(idx[a] == idx0[a0]);
                    assert(idx[b] == idx0[b0]);
                } else if a == j {
                    let b0 = if b < j { b } else { b - 1 };
                    assert(idx[b] == idx0[b0]);
                } else {
                    let a0 = if a < j { a } else { a - 1 };
                    assert(idx[a] == idx0[a0]);
                }
            }
            assert forall|a: int, b: int|
                0 <= a < b < out@.len() && name_bytes(out@[a]) == name_bytes(out@[b]) implies idx[a]
                < idx[b] by {
                if b == j {
                    lemma_bytes_le_refl(name_bytes(c));
                    assert(out@[a] == out0[a]);
                } else if a == j {
                    assert(idx[b] == idx0[b - 1]);
                } else if a < j && b > j {
                    assert(out@[a] == out0[a]);
                    assert(out@[b] == out0[b - 1]);
                    assert(idx[a] == idx0[a]);
                    assert(idx[b] == idx0[b - 1]);
                } else if a > j {
                    assert(out@[a] == out0[a - 1]);
                    assert(out@[b] == out0[b - 1]);
                    assert(idx[a] == idx0[a - 1]);
                    assert(idx[b] == idx0[b - 1]);
                } else {
                    assert(out@[a] == out0[a]);
                    assert(out@[b] == out0[b]);
                    assert(idx[a] == idx0[a]);
                    assert(idx[b] == idx0[b]);
                }
            }
        }
    }
    assert(rearranged(out@, orig, idx));
    out
}

/// The kind of a collection decides how its clips behave when played.
#[derive(Clone, Copy, Debug, PartialEq, Eq, Structural)]
pub enum CollectionKind {
    Drops,
    BackgroundMusic,
    BattleMusic,
    Fx,
    Ambience,
}

impl CollectionKind {
    /// Clips of this kind start over when they reach their end.
    pub open spec fn loops(self) -> bool {
        match self {
            CollectionKind::Drops | CollectionKind::Fx => false,
            CollectionKind::BackgroundMusic
            | CollectionKind::BattleMusic
            | CollectionKind::Ambience => true,
        }
    }

    /// Starting a clip of this kind stops every other clip of the same kind.
    pub open spec fn exclusive(self) -> bool {
        match self {
            CollectionKind::Drops
            | CollectionKind::BackgroundMusic
            | CollectionKind::BattleMusic => true,
            CollectionKind::Fx | CollectionKind::Ambience => false,
        }
    }

    /// The priority tier; a higher tier pauses lower ones while it plays.
    /// `None` means the kind takes no part in priority handling.
    pub open spec fn tier(self) -> Option<i8> {
        match self {
            CollectionKind::BackgroundMusic => Some(0i8),
            CollectionKind::BattleMusic => Some(1i8),
            CollectionKind::Drops => Some(2i8),
            CollectionKind::Fx | CollectionKind::Ambience => None,
        }
    }

    /// How long, in milliseconds, a clip of this kind fades out when stopped.
    pub open spec fn stop_fade(self) -> u64 {
        match self {
            CollectionKind::Fx | CollectionKind::Drops => 200,
            CollectionKind::BackgroundMusic
            | CollectionKind::BattleMusic
            | CollectionKind::Ambience => 1000,
        }
    }

    pub fn loop_playback(&self) -> (r: bool)
        ensures
            r == self.loops(),
    {
        match self {
            CollectionKind::Drops | CollectionKind::Fx => false,
            CollectionKind::BackgroundMusic
            | CollectionKind::Ambience
            | CollectionKind::BattleMusic => true,
        }
    }

    pub fn is_exclusive(&self) -> (r: bool)
        ensures
            r == self.exclusive(),
    {
        match self {
            CollectionKind::Drops
            | CollectionKind::BackgroundMusic
            | CollectionKind::BattleMusic => true,
            CollectionKind::Fx | CollectionKind::Ambience => false,
        }
    }

    pub fn priority(&self) -> (r: Option<i8>)
        ensures
            r == self.tier(),
    {
        match self {
            CollectionKind::BackgroundMusic => Some(0),
            CollectionKind::BattleMusic => Some(1),
            CollectionKind::Drops => Some(2),
            CollectionKind::Fx | CollectionKind::Ambience => None,
        }
    }

    pub fn stop_fade_ms(&self) -> (r: u64)
        ensures
            r == self.stop_fade(),
    {
        match self {
            CollectionKind::Fx | CollectionKind::Drops => 200,
            CollectionKind::BackgroundMusic
            | CollectionKind::Ambience
            | CollectionKind::BattleMusic => 1000,
        }
    }
}

/// One playable audio file.
#[derive(Clone, Debug)]
pub struct Clip {
    pub id: u64,
    pub name: String,
    pub path: String,
}

impl Clip {
    /// The clip's id and name are those that its path gives.
    pub open spec fn describes_file(self) -> bool {
        &&& self.id == path_hash(self.path@)
        &&& self.name@ == display_name(self.path@)
    }

    /// The clip for the audio file at `path`.
    pub fn from_file(path: String) -> (r: Clip)
        ensures
            r.path == path,
            r.describes_file(),
    {
        let id = hash_path(path.as_str());
        let name = display_name_of(path.as_str());
        Clip { id, name, path }
    }
}

/// A named directory of clips that share a kind.
#[derive(Clone, Debug)]
pub struct Collection {
    pub id: u64,
    pub name: String,
    pub directory: String,
    pub clips: Vec<Clip>,
    pub kind: CollectionKind,
}

/// Every collection the soundboard knows of, in the order they were added.
#[derive(Clone, Debug)]
pub struct Library {
    pub collections: Vec<Collection>,
}

/// The first clip of `clips`, from position `i` on, whose id is `id`.
pub open spec fn find_clip(clips: Seq<Clip>, id: u64, i: int) -> Option<Clip>
    decreases clips.len() - i,
{
    if i < 0 || i >= clips.len() {
        None
    } else if clips[i].id == id {
        Some(clips[i])
    } else {
        find_clip(clips, id, i + 1)
    }
}

/// The first collection of `colls`, from position `i` on, whose id is `id`.
pub open spec fn find_collection(colls: Seq<Collection>, id: u64, i: int) -> Option<Collection>
    decreases colls.len() - i,
{
    if i < 0 || i >= colls.len() {
        None
    } else if colls[i].id == id {
        Some(colls[i])
    } else {
        find_collection(colls, id, i + 1)
    }
}

impl Collection {
    /// The collection of kind `kind` for the directory `directory`, given
    /// the paths of the regular files directly in it, in any order. Its
    /// clips are those files, ordered by name.
    pub fn from_dir(directory: String, files: Vec<String>, kind: CollectionKind) -> (r: Collection)
        ensures
            r.id == path_hash(directory@),
            r.name@ == display_name(directory@),
            r.directory == directory,
            r.kind == kind,
            sorted_by_name(r.clips@),
            exists|src: Seq<int>| #[trigger] arranged_from(r.clips@, file_paths(files@), src),
            forall|i: int| 0 <= i < r.clips@.len() ==> (#[trigger] r.clips@[i]).describes_file(),
    {
        let id = hash_path(directory.as_str());
        let name = display_name_of(directory.as_str());
        let mut clips: Vec<Clip> = Vec::new();
        let mut i: usize = 0;
        while i < files.len()
            invariant
                i <= files@.len(),
                clips@.len() == i,
                clip_paths(clips@) == files@.subrange(0, i as int).map_values(|f: String| f@),
                forall|k: int| 0 <= k < clips@.len() ==> (#[trigger] clips@[k]).describes_file(),
            decreases files@.len() - i,
        {
            let path = files[i].clone();
            let clip = Clip::from_file(path);
            let ghost before = clips@;
            clips.push(clip);
            assert(clips@[i as int].path@ == files@[i as int]@);
            assert(forall|k: int| 0 <= k < i ==> clips@[k] == before[k]);
            i = i + 1;
            assert(clip_paths(clips@) =~= files@.subrange(0, i as int).map_values(|f: String| f@)) by {
                assert forall|k: int| 0 <= k < i implies clip_paths(clips@)[k] == files@.subrange(
                    0,
                    i as int,
                ).map_values(|f: String| f@)[k] by {
                    if k < i - 1 {
                        assert(clip_paths(before)[k] == files@.subrange(0, i - 1).map_values(
                            |f: String| f@,
                        )[k]);
                    }
                }
            }
        }
        assert(files@.subrange(0, i as int) =~= files@);
        let ghost unsorted = clips@;
        let sorted = sort_by_name(clips);
        let ghost src = choose|src: Seq<int>| rearranged(sorted@, unsorted, src);
        let ghost paths = file_paths(files@);
        assert forall|k: int| 0 <= k < sorted@.len() implies (#[trigger] sorted@[k]).describes_file() by {
            assert(sorted@[k] == unsorted[src[k]]);
        }
        assert forall|k: int| 0 <= k < sorted@.len() implies 0 <= #[trigger] src[k] < paths.len()
            && sorted@[k].path@ == paths[src[k]] by {
            assert(sorted@[k] == unsorted[src[k]]);
            assert(clip_paths(unsorted)[src[k]] == unsorted[src[k]].path@);
        }
        assert(arranged_from(sorted@, paths, src));
        Collection { id, name, directory, clips: sorted, kind }
    }

    /// The clip with the given id, if the collection holds one.
    pub open spec fn clip_with(self, clip_id: u64) -> Option<Clip> {
        find_clip(self.clips@, clip_id, 0)
    }

    pub fn clip(&self, clip_id: u64) -> (r: Option<&Clip>)
        ensures
            match r {
                Some(c) => self.clip_with(clip_id) == Some(*c),
                None => self.clip_with(clip_id) is None,
            },
    {
        let mut i: usize = 0;
        while i < self.clips.len()
            invariant
                i <= self.clips@.len(),
                find_clip(self.clips@, clip_id, 0) == find_clip(self.clips@, clip_id, i as int),
            decreases self.clips@.len() - i,
        {
            if self.clips[i].id == clip_id {
                return Some(&self.clips[i]);
            }
            i = i + 1;
        }
        None
    }
}

impl Library {
    pub fn new() -> (r: Library)
        ensures
            r.collections@.len() == 0,
    {
        Library { collections: Vec::new() }
    }

    /// The collection with the given id, if there is one.
    pub open spec fn collection_with(self, coll_id: u64) -> Option<Collection> {
        find_collection(self.collections@, coll_id, 0)
    }

    /// The kind of the collection that holds the clip `(coll_id, clip_id)`,
    /// if the catalog has that clip.
    pub open spec fn kind_of_clip(self, coll_id: u64, clip_id: u64) -> Option<CollectionKind> {
        match self.collection_with(coll_id) {
            Some(c) => match c.clip_with(clip_id) {
                Some(_) => Some(c.kind),
                None => None,
            },
            None => None,
        }
    }

    pub fn add_collection(&mut self, coll: Collection)
        ensures
            final(self).collections@ == old(self).collections@.push(coll),
    {
        self.collections.push(coll);
    }

    pub fn collection(&self, coll_id: u64) -> (r: Option<&Collection>)
        ensures
            match r {
                Some(c) => self.collection_with(coll_id) == Some(*c),
                None => self.collection_with(coll_id) is None,
            },
    {
        let mut i: usize = 0;
        while i < self.collections.len()
            invariant
                i <= self.collections@.len(),
                find_collection(self.collections@, coll_id, 0) == find_collection(
                    self.collections@,
                    coll_id,
                    i as int,
                ),
            decreases self.collections@.len() - i,
        {
            if self.collections[i].id == coll_id {
                return Some(&self.collections[i]);
            }
            i = i + 1;
        }
        None
    }

    /// The clip `clip_id` of collection `coll_id`, if the catalog has it.
    pub fn lookup_clip(&self, coll_id: u64, clip_id: u64) -> (r: Option<&Clip>)
        ensures
            match r {
                Some(c) => self.collection_with(coll_id) matches Some(coll) && coll.clip_with(clip_id)
                    == Some(*c),
                None => !(self.collection_with(coll_id) matches Some(coll) && coll.clip_with(
                    clip_id,
                ) is Some),
            },
    {
        match self.collection(coll_id) {
            Some(c) => c.clip(clip_id),
            None => None,
        }
    }

    /// The kind of the collection that holds the clip, if the catalog has it.
    pub fn clip_kind(&self, coll_id: u64, clip_id: u64) -> (r: Option<CollectionKind>)
        ensures
            r == self.kind_of_clip(coll_id, clip_id),
    {
        match self.collection(coll_id) {
            Some(c) => match c.clip(clip_id) {
                Some(_) => Some(c.kind),
                None => None,
            },
            None => None,
        }
    }
}

} // verus!
