//! Reference datasets of resource fingerprints, and the verdict on whether a file's
//! content differs from its unmodified version.
use std::collections::HashMap;
use vstd::prelude::*;
use vstd::utf8::encode_utf8;

verus! {

broadcast use vstd::std_specs::hash::group_hash_axioms;

/// The console edition whose reference dataset a table holds.
#[derive(Debug, PartialEq, Eq, Structural, Clone, Copy)]
pub enum Platform {
    WiiU,
    Switch,
}

/// The 64-bit xxHash of `data` under `seed`.
pub uninterp spec fn xxh64_of(seed: u64, data: Seq<u8>) -> u64;

/// What serde_json reads from `doc` as a map from resource path to fingerprints,
/// listed in key order; none where the document is not such a map.
pub uninterp spec fn json_dataset(doc: Seq<char>) -> Option<Seq<(Seq<char>, Seq<u64>)>>;

/// Relies on `twox_hash::XxHash64::oneshot`: the xxHash64 digest of the bytes under the
/// seed, which depends on them alone.
#[verifier::external_body]
fn xxh64(seed: u64, data: &[u8]) -> (r: u64)
    ensures
        r == xxh64_of(seed, data@),
{
    twox_hash::XxHash64::oneshot(seed, data)
}

/// Relies on `serde_json::from_str` into a `BTreeMap<String, Vec<u64>>`: the entries in
/// key order, each key once, or an error where the text is no such JSON object.
#[verifier::external_body]
fn parse_dataset(doc: &str) -> (r: Result<(Vec<String>, Vec<Vec<u64>>), serde_json::Error>)
    ensures
        match r {
            Ok((paths, hashes)) => json_dataset(doc@) is Some && paths.len() == hashes.len()
                && paths.len() == json_dataset(doc@)->0.len() && (forall|i: int|
                0 <= i < paths.len() ==> #[trigger] json_dataset(doc@)->0[i] == (
                paths[i]@,
                hashes[i]@,
            )) && (forall|i: int, j: int|
                0 <= i < j < paths.len() ==> paths[i]@ != paths[j]@),
            Err(_) => json_dataset(doc@) is None,
        },
{
    serde_json::from_str::<std::collections::BTreeMap<String, Vec<u64>>>(doc).map(
        |m| m.into_iter().unzip(),
    )
}

/// serde_json's parse error, carried through opaque.
#[verifier::external_type_specification]
#[verifier::external_body]
pub struct ExJsonError(serde_json::Error);

/// The first four bytes are the Yaz0 container's magic, "Yaz0".
pub open spec fn has_yaz0_magic(data: Seq<u8>) -> bool {
    data.len() >= 4 && data[0] == 0x59u8 && data[1] == 0x61u8 && data[2] == 0x7au8 && data[3]
        == 0x30u8
}

/// The fingerprint of a file's content: of the unpacked payload where the bytes carry the
/// Yaz0 magic (none where unpacking failed), else of the bytes themselves.
pub open spec fn content_fingerprint(data: Seq<u8>, unpacked: Option<Seq<u8>>) -> Option<u64> {
    if has_yaz0_magic(data) {
        match unpacked {
            Some(p) => Some(xxh64_of(0, p)),
            None => None,
        }
    } else {
        Some(xxh64_of(0, data))
    }
}

/// Whether the content of a file must be unpacked before it is fingerprinted.
pub fn is_yaz0(data: &[u8]) -> (r: bool)
    ensures
        r == has_yaz0_magic(data@),
{
    data.len() >= 4 && data[0] == 0x59u8 && data[1] == 0x61u8 && data[2] == 0x7au8 && data[3]
        == 0x30u8
}

/// Parses a reference dataset document, a JSON object from canonical resource path to
/// the fingerprints accepted for it, into its paths and fingerprint lists, in key order.
pub fn get_hash_table(document: &str) -> (r: Option<(Vec<String>, Vec<Vec<u64>>)>)
    ensures
        match r {
            Some((paths, hashes)) => json_dataset(document@) is Some && paths.len()
                == hashes.len() && paths.len() == json_dataset(document@)->0.len() && (forall|
                i: int,
            |
                0 <= i < paths.len() ==> #[trigger] json_dataset(document@)->0[i] == (
                    paths[i]@,
                    hashes[i]@,
                )),
            None => json_dataset(document@) is None,
        },
{
    match parse_dataset(document) {
        Ok(t) => Some(t),
        Err(_) => None,
    }
}

/// The reference dataset of one platform: each canonical resource path with the
/// fingerprints of its unmodified content.
#[derive(Debug, PartialEq, Eq)]
pub struct StockHashTable {
    platform: Platform,
    paths: Vec<String>,
    hashes: Vec<Vec<u64>>,
    /// The positions of the paths, grouped by the fingerprint of each path's bytes.
    index: HashMap<u64, Vec<usize>>,
}

/// The index key of a path: the fingerprint of its UTF-8 bytes.
pub open spec fn path_key(p: Seq<char>) -> u64 {
    xxh64_of(0, encode_utf8(p))
}

/// `index` lists each of the first `n` positions of `paths` under its path's key, and
/// lists no other position.
spec fn indexes(index: Map<u64, Vec<usize>>, paths: Seq<String>, n: int) -> bool {
    &&& forall|i: int|
        0 <= i < n ==> index.contains_key(path_key(#[trigger] paths[i]@)) && index[path_key(
            paths[i]@,
        )]@.contains(i as usize)
    &&& forall|k: u64, j: int|
        index.contains_key(k) && 0 <= j < index[k]@.len() ==> #[trigger] index[k]@[j] < n
}

/// Builds the index of `paths`.
fn index_of(paths: &Vec<String>) -> (r: HashMap<u64, Vec<usize>>)
    ensures
        indexes(r@, paths@, paths.len() as int),
{
    let mut index: HashMap<u64, Vec<usize>> = HashMap::new();
    let mut i: usize = 0;
    while i < paths.len()
        invariant
            i <= paths.len(),
            indexes(index@, paths@, i as int),
        decreases paths.len() - i,
    {
        let k = xxh64(0, paths[i].as_str().as_bytes());
        let ghost old_index = index@;
        let mut bucket = match index.remove(&k) {
            Some(b) => b,
            None => Vec::new(),
        };
        let ghost old_bucket = bucket@;
        bucket.push(i);
        index.insert(k, bucket);
        assert(index@[k]@ == old_bucket.push(i));
        assert(index@[k]@[old_bucket.len() as int] == i);
        assert forall|j: int| 0 <= j < i + 1 implies index@.contains_key(
            path_key(#[trigger] paths@[j]@),
        ) && index@[path_key(paths@[j]@)]@.contains(j as usize) by {
            if j < i {
                if path_key(paths@[j]@) == k {
                    let m = choose|m: int|
                        0 <= m < old_bucket.len() && old_bucket[m] == j as usize;
                    assert(index@[k]@[m] == j as usize);
                }
            } else {
                assert(index@[k]@[old_bucket.len() as int] == j as usize);
            }
        }
        i += 1;
    }
    index
}

impl StockHashTable {
    /// The paths and fingerprint lists line up, and each path is listed once.
    pub closed spec fn wf(&self) -> bool {
        &&& self.paths.len() == self.hashes.len()
        &&& indexes(self.index@, self.paths@, self.paths.len() as int)
        &&& forall|i: int, j: int|
            0 <= i < self.paths.len() && 0 <= j < self.paths.len() && i != j
                ==> self.paths[i]@ != self.paths[j]@
    }

    /// The entries of the table, each a path with its accepted fingerprints.
    pub closed spec fn entries(&self) -> Seq<(Seq<char>, Seq<u64>)> {
        Seq::new(self.paths@.len(), |i: int| (self.paths[i]@, self.hashes[i]@))
    }

    pub closed spec fn spec_platform(&self) -> Platform {
        self.platform
    }

    /// `path` is a key of the table.
    pub open spec fn knows(&self, path: Seq<char>) -> bool {
        exists|i: int| 0 <= i < self.entries().len() && #[trigger] self.entries()[i].0 == path
    }

    /// `h` is among the fingerprints accepted for `path`.
    pub open spec fn accepts(&self, path: Seq<char>, h: u64) -> bool {
        exists|i: int|
            0 <= i < self.entries().len() && #[trigger] self.entries()[i].0 == path
                && self.entries()[i].1.contains(h)
    }

    /// The verdict on a file whose content has the given fingerprint (none where it
    /// could not be read).
    pub open spec fn modded_by_fingerprint(
        &self,
        path: Seq<char>,
        fingerprint: Option<u64>,
        flag_new: bool,
    ) -> bool {
        if !self.knows(path) {
            flag_new
        } else {
            match fingerprint {
                Some(h) => !self.accepts(path, h),
                None => true,
            }
        }
    }

    /// The verdict on a file with the given bytes and, where they are a Yaz0 container,
    /// the payload unpacked from them.
    pub open spec fn modded(
        &self,
        path: Seq<char>,
        data: Seq<u8>,
        unpacked: Option<Seq<u8>>,
        flag_new: bool,
    ) -> bool {
        self.modded_by_fingerprint(path, content_fingerprint(data, unpacked), flag_new)
    }

    /// Builds the table of `platform` from its reference dataset document; `None` where
    /// the document is not a JSON object from path to a list of fingerprints.
    pub fn new(platform: &Platform, document: &str) -> (r: Option<StockHashTable>)
        ensures
            match r {
                Some(t) => t.wf() && t.spec_platform() == *platform && json_dataset(document@)
                    == Some(t.entries()),
                None => json_dataset(document@) is None,
            },
    {
        match parse_dataset(document) {
            Ok((paths, hashes)) => {
                let index = index_of(&paths);
                let t = StockHashTable { platform: *platform, paths, hashes, index };
                assert(t.entries() =~= json_dataset(document@)->0);
                Some(t)
            },
            Err(_) => None,
        }
    }

    /// The platform whose dataset the table holds.
    pub fn platform(&self) -> (r: Platform)
        ensures
            r == self.spec_platform(),
    {
        self.platform
    }

    /// The canonical resource paths of the table, borrowed, in key order.
    pub fn get_stock_files(&self) -> (r: &[String])
        ensures
            r@.len() == self.entries().len(),
            forall|i: int| 0 <= i < r@.len() ==> r@[i]@ == #[trigger] self.entries()[i].0,
            self.wf() ==> forall|i: int, j: int| 0 <= i < j < r@.len() ==> r@[i]@ != r@[j]@,
    {
        self.paths.as_slice()
    }

    /// An owned list of the canonical resource paths of the table, in key order.
    pub fn list_stock_files(&self) -> (r: Vec<String>)
        ensures
            r.len() == self.entries().len(),
            forall|i: int| 0 <= i < r.len() ==> r[i]@ == #[trigger] self.entries()[i].0,
            self.wf() ==> forall|i: int, j: int| 0 <= i < j < r.len() ==> r[i]@ != r[j]@,
    {
        let mut r: Vec<String> = Vec::new();
        let mut i: usize = 0;
        while i < self.paths.len()
            invariant
                i <= self.paths.len(),
                r.len() == i,
                forall|j: int| 0 <= j < i ==> r[j]@ == #[trigger] self.paths[j]@,
            decreases self.paths.len() - i,
        {
            r.push(self.paths[i].clone());
            i += 1;
        }
        assert forall|a: int, b: int| self.wf() && 0 <= a < b < r.len() implies r[a]@ != r[b]@ by {
            assert(r[a]@ == self.paths[a]@);
            assert(r[b]@ == self.paths[b]@);
        }
        r
    }

    /// The index of `path` in the table, if it is there.
    fn find(&self, path: &str) -> (r: Option<usize>)
        requires
            self.wf(),
        ensures
            match r {
                Some(i) => i < self.paths.len() && self.paths[i as int]@ == path@ && self.knows(
                    path@,
                ),
                None => !self.knows(path@),
            },
    {
        let key = path.to_owned();
        let k = xxh64(0, path.as_bytes());
        let bucket = match self.index.get(&k) {
            Some(b) => b,
            None => {
                proof {
                    if self.knows(path@) {
                        let j = choose|j: int|
                            0 <= j < self.entries().len() && #[trigger] self.entries()[j].0
                                == path@;
                        assert(self.paths@[j]@ == path@);
                    }
                }
                return None;
            },
        };
        let mut m: usize = 0;
        while m < bucket.len()
            invariant
                self.wf(),
                key@ == path@,
                self.index@.contains_key(k),
                self.index@[k] == *bucket,
                k == path_key(path@),
                m <= bucket.len(),
                forall|j: int| 0 <= j < m ==> self.paths@[bucket@[j] as int]@ != path@,
            decreases bucket.len() - m,
        {
            let i = bucket[m];
            assert(self.index@[k]@[m as int] < self.paths.len());
            if self.paths[i] == key {
                assert(self.entries()[i as int].0 == path@);
                return Some(i);
            }
            m += 1;
        }
        proof {
            if self.knows(path@) {
                let j = choose|j: int|
                    0 <= j < self.entries().len() && #[trigger] self.entries()[j].0 == path@;
                assert(self.paths@[j]@ == path@);
                assert(self.index@[k]@.contains(j as usize));
                let n = choose|n: int| 0 <= n < bucket@.len() && bucket@[n] == j as usize;
                assert(self.paths@[bucket@[n] as int]@ != path@);
            }
        }
        None
    }

    /// Whether `file_name` is absent from the table, as for a file that a mod adds.
    pub fn is_file_new(&self, file_name: &str) -> (r: bool)
        requires
            self.wf(),
        ensures
            r == !self.knows(file_name@),
    {
        self.find(file_name).is_none()
    }

    /// The verdict on a file whose content has the given fingerprint, `None` standing for
    /// content that could not be unpacked: a file absent from the table gets `flag_new`;
    /// a present one is modified unless its fingerprint is among those accepted for it.
    pub fn is_fingerprint_modded(
        &self,
        file_name: &str,
        fingerprint: Option<u64>,
        flag_new: bool,
    ) -> (r: bool)
        requires
            self.wf(),
        ensures
            r == self.modded_by_fingerprint(file_name@, fingerprint, flag_new),
    {
        match self.find(file_name) {
            None => flag_new,
            Some(i) => match fingerprint {
                None => true,
                Some(h) => {
                    let hs = &self.hashes[i];
                    assert(self.entries()[i as int] == (self.paths[i as int]@, hs@));
                    let mut k: usize = 0;
                    while k < hs.len()
                        invariant
                            k <= hs.len(),
                            i < self.paths.len(),
                            self.wf(),
                            fingerprint == Some(h),
                            self.paths[i as int]@ == file_name@,
                            self.entries()[i as int] == (self.paths[i as int]@, hs@),
                            forall|j: int| 0 <= j < k ==> hs[j] != h,
                        decreases hs.len() - k,
                    {
                        if hs[k] == h {
                            assert(self.entries()[i as int].1[k as int] == h);
                            assert(self.entries()[i as int].1.contains(h));
                            assert(self.entries()[i as int].0 == file_name@);
                            assert(self.accepts(file_name@, h));
                            return false;
                        }
                        k += 1;
                    }
                    proof {
                        if self.accepts(file_name@, h) {
                            let j = choose|j: int|
                                0 <= j < self.entries().len() && #[trigger] self.entries()[j].0
                                    == file_name@ && self.entries()[j].1.contains(h);
                            assert(j == i);
                        }
                    }
                    true
                },
            },
        }
    }

    /// Checks whether a file differs from its unmodified version. `data` is the file's
    /// content; where it is a Yaz0 container, `unpacked` is the payload unpacked from it,
    /// `None` where unpacking failed. A file absent from the table gets `flag_new`.
    pub fn is_file_modded(
        &self,
        file_name: &str,
        data: &[u8],
        unpacked: Option<&[u8]>,
        flag_new: bool,
    ) -> (r: bool)
        requires
            self.wf(),
        ensures
            r == self.modded(
                file_name@,
                data@,
                match unpacked {
                    Some(p) => Some(p@),
                    None => None,
                },
                flag_new,
            ),
    {
        if self.is_file_new(file_name) {
            return flag_new;
        }
        let fingerprint = if is_yaz0(data) {
            match unpacked {
                Some(p) => Some(xxh64(0, p)),
                None => None,
            }
        } else {
            Some(xxh64(0, data))
        };
        self.is_fingerprint_modded(file_name, fingerprint, flag_new)
    }
}

/// A well-formed table holds each path once.
pub proof fn lemma_entries_distinct(t: &StockHashTable)
    requires
        t.wf(),
    ensures
        forall|i: int, j: int|
            0 <= i < j < t.entries().len() ==> t.entries()[i].0 != t.entries()[j].0,
{
}

/// Every path of a table's dataset is known to the table.
pub proof fn lemma_dataset_paths_known(t: &StockHashTable, i: int)
    requires
        0 <= i < t.entries().len(),
    ensures
        t.knows(t.entries()[i].0),
{
}

/// For a path absent from the table the verdict is the caller's flag, whatever the content.
pub proof fn lemma_unknown_path_follows_flag(
    t: &StockHashTable,
    path: Seq<char>,
    data: Seq<u8>,
    unpacked: Option<Seq<u8>>,
)
    requires
        !t.knows(path),
    ensures
        t.modded(path, data, unpacked, true),
        !t.modded(path, data, unpacked, false),
{
}

/// Content whose fingerprint is one of those stored for its path is unmodified,
/// whether it came packed in a Yaz0 container or not.
pub proof fn lemma_reference_content_unmodified(
    t: &StockHashTable,
    i: int,
    data: Seq<u8>,
    unpacked: Option<Seq<u8>>,
    flag_new: bool,
)
    requires
        0 <= i < t.entries().len(),
        content_fingerprint(data, unpacked) is Some,
        t.entries()[i].1.contains(content_fingerprint(data, unpacked)->0),
    ensures
        !t.modded(t.entries()[i].0, data, unpacked, flag_new),
{
    assert(t.accepts(t.entries()[i].0, content_fingerprint(data, unpacked)->0));
}

/// Content of a known path whose fingerprint is none of those stored for it is modified.
pub proof fn lemma_foreign_content_modded(
    t: &StockHashTable,
    path: Seq<char>,
    data: Seq<u8>,
    unpacked: Option<Seq<u8>>,
    flag_new: bool,
)
    requires
        t.knows(path),
        content_fingerprint(data, unpacked) is Some,
        !t.accepts(path, content_fingerprint(data, unpacked)->0),
    ensures
        t.modded(path, data, unpacked, flag_new),
{
}

/// A Yaz0 container of a known path that could not be unpacked counts as modified,
/// whatever the flag for new files says.
pub proof fn lemma_unreadable_container_modded(
    t: &StockHashTable,
    path: Seq<char>,
    data: Seq<u8>,
    flag_new: bool,
)
    requires
        t.knows(path),
        has_yaz0_magic(data),
    ensures
        t.modded(path, data, None, flag_new),
{
}

} // verus!
