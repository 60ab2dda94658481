//! Canonical resource paths: separator and source-marker normalization, and
//! recognition of the base-content and downloadable-content roots.
use vstd::prelude::*;

verus! {

/// Relies on `String::push`: the character is appended at the end.
pub assume_specification[ String::push ](s: &mut String, ch: char)
    ensures
        final(s)@ == old(s)@.push(ch),
;

/// `s` holds `p` starting at index `i`.
pub open spec fn holds_at(s: Seq<char>, i: int, p: Seq<char>) -> bool {
    0 <= i && i + p.len() <= s.len() && s.subrange(i, i + p.len()) == p
}

/// `p` occurs somewhere in `s`.
pub open spec fn occurs_in(s: Seq<char>, p: Seq<char>) -> bool {
    exists|i: int| holds_at(s, i, p)
}

/// `c` equals the pattern character `p`, letters compared without regard to case: the
/// two ASCII cases, and the long s (U+017F), which folds to 's'.
pub open spec fn same_letter(c: char, p: char) -> bool {
    ||| c == p
    ||| 'a' <= p && p <= 'z' && c as u32 + 32 == p as u32
    ||| 'A' <= p && p <= 'Z' && c as u32 == p as u32 + 32
    ||| (p == 's' || p == 'S') && c as u32 == 0x17f
}

/// `s` holds `p` from index `i` on, ignoring ASCII case.
pub open spec fn holds_at_nocase(s: Seq<char>, i: int, p: Seq<char>) -> bool {
    &&& 0 <= i
    &&& i + p.len() <= s.len()
    &&& forall|k: int| 0 <= k < p.len() ==> #[trigger] same_letter(s[i + k], p[k])
}

/// Every backslash turned into a forward slash.
pub open spec fn slashed(s: Seq<char>) -> Seq<char> {
    s.map_values(|c: char| if c == '\\' { '/' } else { c })
}

/// The suffix of `s` from `i`, with its first ".s" turned into ".".
pub open spec fn unsourced_from(s: Seq<char>, i: int) -> Seq<char>
    decreases s.len() - i,
{
    if i < 0 || i >= s.len() {
        Seq::empty()
    } else if i + 1 < s.len() && s[i] == '.' && s[i + 1] == 's' {
        seq!['.'] + s.subrange(i + 2, s.len() as int)
    } else {
        seq![s[i]] + unsourced_from(s, i + 1)
    }
}

/// A root-relative path with its separators and its source marker normalized.
pub open spec fn without_root(raw: Seq<char>) -> Seq<char> {
    unsourced_from(slashed(raw), 0)
}

/// A path that normalization leaves as it is: no backslash and no ".s".
pub open spec fn is_canonical(p: Seq<char>) -> bool {
    &&& forall|i: int| 0 <= i < p.len() ==> p[i] != '\\'
    &&& !occurs_in(p, ".s"@)
}

/// The length of the homebrew loader's directory prefix at `i`, or 0.
pub open spec fn loader_prefix_len(s: Seq<char>, i: int) -> int {
    if holds_at_nocase(s, i, "atmosphere/titles/"@) {
        "atmosphere/titles/"@.len() as int
    } else if holds_at_nocase(s, i, "atmosphere/contents/"@) {
        "atmosphere/contents/"@.len() as int
    } else {
        0
    }
}

/// The base game's title directory, "01007EF00011E000/romfs/", at `i`.
pub open spec fn base_title_at(s: Seq<char>, i: int) -> bool {
    holds_at_nocase(s, i, "01007ef00011e000/romfs/"@)
}

/// A downloadable-content title directory, "01007EF00011[EF]00[0-2]/romfs/", at `i`.
pub open spec fn dlc_title_at(s: Seq<char>, i: int) -> bool {
    &&& holds_at_nocase(s, i, "01007ef00011"@)
    &&& holds_at_nocase(s, i + 16, "/romfs/"@)
    &&& same_letter(s[i + 12], 'e') || same_letter(s[i + 12], 'f')
    &&& s[i + 13] == '0' && s[i + 14] == '0'
    &&& '0' <= s[i + 15] && s[i + 15] <= '2'
}

/// The length of a title directory together with its "/romfs/".
pub open spec fn title_len() -> int {
    16 + "/romfs/"@.len() as int
}

/// The root that starts at `i`, as its length (0 for none) and whether it is a
/// base-content root. Alternatives are tried in order and the first that fits is taken.
pub open spec fn root_at(s: Seq<char>, i: int) -> (int, bool) {
    let p = loader_prefix_len(s, i);
    if holds_at_nocase(s, i, "content/"@) {
        ("content/"@.len() as int, true)
    } else if p > 0 && base_title_at(s, i + p) {
        (p + title_len(), true)
    } else if base_title_at(s, i) {
        (title_len(), true)
    } else if holds_at_nocase(s, i, "aoc/0010/"@) {
        ("aoc/0010/"@.len() as int, false)
    } else if holds_at_nocase(s, i, "aoc/"@) {
        ("aoc/"@.len() as int, false)
    } else if p > 0 && dlc_title_at(s, i + p) {
        (p + title_len(), false)
    } else if dlc_title_at(s, i) {
        (title_len(), false)
    } else {
        (0, false)
    }
}

/// The marker that stands for a root of the given family.
pub open spec fn root_marker(base: bool) -> Seq<char> {
    if base {
        "content/"@
    } else {
        "aoc/0010/"@
    }
}

/// The suffix of `s` from `i`, scanned left to right, with each root replaced by its marker.
pub open spec fn marked_from(s: Seq<char>, i: int) -> Seq<char>
    decreases s.len() - i,
{
    if i < 0 || i >= s.len() {
        Seq::empty()
    } else if root_at(s, i).0 > 0 && i + root_at(s, i).0 <= s.len() {
        root_marker(root_at(s, i).1) + marked_from(s, i + root_at(s, i).0)
    } else {
        seq![s[i]] + marked_from(s, i + 1)
    }
}

/// The suffix of `s` from `i` with every occurrence of `p`, left to right and
/// without overlap, replaced by `r`.
pub open spec fn replaced_from(s: Seq<char>, p: Seq<char>, r: Seq<char>, i: int) -> Seq<char>
    decreases s.len() - i,
{
    if i < 0 || i >= s.len() {
        Seq::empty()
    } else if p.len() > 0 && holds_at(s, i, p) {
        r + replaced_from(s, p, r, i + p.len())
    } else {
        seq![s[i]] + replaced_from(s, p, r, i + 1)
    }
}

/// A downloadable-content path with "aoc/content" collapsed and its "aoc" prefix capitalized.
pub open spec fn dlc_canonical(n: Seq<char>) -> Seq<char> {
    let t = replaced_from(n, "aoc/content"@, "Aoc"@, 0);
    if holds_at(t, 0, "aoc"@) {
        "Aoc"@ + t.subrange("aoc"@.len() as int, t.len() as int)
    } else {
        t
    }
}

/// A base-content path with its leading "content/" removed.
pub open spec fn base_canonical(n: Seq<char>) -> Seq<char> {
    if holds_at(n, 0, "content/"@) {
        n.subrange("content/"@.len() as int, n.len() as int)
    } else {
        n
    }
}

/// The canonical resource path of a root-relative path, or none where no root is recognized.
pub open spec fn canon_name(raw: Seq<char>) -> Option<Seq<char>> {
    let n = marked_from(without_root(raw), 0);
    if holds_at(n, 0, "aoc/"@) {
        Some(dlc_canonical(n))
    } else if holds_at(n, 0, "content"@) && !occurs_in(n, "/aoc"@) {
        Some(base_canonical(n))
    } else {
        None
    }
}

fn chars_of(s: &str) -> (v: Vec<char>)
    ensures
        v@ == s@,
{
    let n = s.unicode_len();
    let mut v: Vec<char> = Vec::new();
    let mut i: usize = 0;
    while i < n
        invariant
            n == s@.len(),
            i <= n,
            v@ == s@.subrange(0, i as int),
        decreases n - i,
    {
        v.push(s.get_char(i));
        i += 1;
    }
    assert(v@ =~= s@);
    v
}

fn push_all(out: &mut String, p: &Vec<char>)
    ensures
        final(out)@ == old(out)@ + p@,
{
    let mut i: usize = 0;
    while i < p.len()
        invariant
            i <= p.len(),
            out@ == old(out)@ + p@.subrange(0, i as int),
        decreases p.len() - i,
    {
        out.push(p[i]);
        i += 1;
        assert(out@ =~= old(out)@ + p@.subrange(0, i as int));
    }
    assert(p@.subrange(0, p.len() as int) =~= p@);
}

fn push_range(out: &mut String, s: &Vec<char>, from: usize)
    requires
        from <= s.len(),
    ensures
        final(out)@ == old(out)@ + s@.subrange(from as int, s.len() as int),
{
    let mut i: usize = from;
    while i < s.len()
        invariant
            from <= i <= s.len(),
            out@ == old(out)@ + s@.subrange(from as int, i as int),
        decreases s.len() - i,
    {
        out.push(s[i]);
        i += 1;
        assert(out@ =~= old(out)@ + s@.subrange(from as int, i as int));
    }
}

fn matches_at(s: &Vec<char>, i: usize, p: &Vec<char>) -> (r: bool)
    ensures
        r == holds_at(s@, i as int, p@),
{
    if i > s.len() || p.len() > s.len() - i {
        return false;
    }
    let mut k: usize = 0;
    while k < p.len()
        invariant
            i + p.len() <= s.len(),
            k <= p.len(),
            forall|j: int| 0 <= j < k ==> s@[i + j] == p@[j],
        decreases p.len() - k,
    {
        if s[i + k] != p[k] {
            assert(s@.subrange(i as int, i + p.len())[k as int] == s@[i + k]);
            return false;
        }
        k += 1;
    }
    assert(s@.subrange(i as int, i + p.len()) =~= p@);
    true
}

fn letter_matches(c: char, p: char) -> (r: bool)
    ensures
        r == same_letter(c, p),
{
    c == p || ('a' <= p && p <= 'z' && (c as u32) == (p as u32) - 32) || ('A' <= p && p <= 'Z'
        && (c as u32) >= 32 && (c as u32) - 32 == (p as u32)) || ((p == 's' || p == 'S') && (c as u32)
        == 0x17f)
}

fn matches_at_nocase(s: &Vec<char>, i: usize, p: &Vec<char>) -> (r: bool)
    ensures
        r == holds_at_nocase(s@, i as int, p@),
{
    if i > s.len() || p.len() > s.len() - i {
        return false;
    }
    let mut k: usize = 0;
    while k < p.len()
        invariant
            i + p.len() <= s.len(),
            k <= p.len(),
            forall|j: int| 0 <= j < k ==> #[trigger] same_letter(s@[i + j], p@[j]),
        decreases p.len() - k,
    {
        if !letter_matches(s[i + k], p[k]) {
            return false;
        }
        k += 1;
    }
    true
}

fn occurs(s: &Vec<char>, p: &Vec<char>) -> (r: bool)
    ensures
        r == occurs_in(s@, p@),
{
    if p.len() == 0 {
        assert(s@.subrange(0, 0) =~= p@);
        assert(holds_at(s@, 0, p@));
        return true;
    }
    let mut i: usize = 0;
    while i < s.len()
        invariant
            p.len() > 0,
            i <= s.len(),
            forall|j: int| 0 <= j < i ==> !holds_at(s@, j, p@),
        decreases s.len() - i,
    {
        if matches_at(s, i, p) {
            return true;
        }
        i += 1;
    }
    assert forall|j: int| !holds_at(s@, j, p@) by {
        if 0 <= j < i {
        } else if j >= i {
            assert(j + p@.len() > s@.len());
        }
    }
    false
}

fn append_chars(out: &mut Vec<char>, p: &Vec<char>, from: usize)
    requires
        from <= p.len(),
    ensures
        final(out)@ == old(out)@ + p@.subrange(from as int, p.len() as int),
{
    let mut i: usize = from;
    while i < p.len()
        invariant
            from <= i <= p.len(),
            out@ == old(out)@ + p@.subrange(from as int, i as int),
        decreases p.len() - i,
    {
        out.push(p[i]);
        i += 1;
        assert(out@ =~= old(out)@ + p@.subrange(from as int, i as int));
    }
}

fn slash_chars(s: &Vec<char>) -> (r: Vec<char>)
    ensures
        r@ == slashed(s@),
{
    let mut r: Vec<char> = Vec::new();
    let mut i: usize = 0;
    while i < s.len()
        invariant
            i <= s.len(),
            r@ == slashed(s@.subrange(0, i as int)),
        decreases s.len() - i,
    {
        let c = s[i];
        if c == '\\' {
            r.push('/');
        } else {
            r.push(c);
        }
        i += 1;
        assert(r@ =~= slashed(s@.subrange(0, i as int)));
    }
    assert(s@.subrange(0, s.len() as int) =~= s@);
    r
}

fn unsource(s: &Vec<char>) -> (r: Vec<char>)
    ensures
        r@ == unsourced_from(s@, 0),
{
    let mut out: Vec<char> = Vec::new();
    let mut i: usize = 0;
    while i < s.len()
        invariant
            i <= s.len(),
            out@ + unsourced_from(s@, i as int) == unsourced_from(s@, 0),
        decreases s.len() - i,
    {
        if i + 1 < s.len() && s[i] == '.' && s[i + 1] == 's' {
            let ghost before = out@;
            out.push('.');
            append_chars(&mut out, s, i + 2);
            assert(out@ =~= before + unsourced_from(s@, i as int));
            return out;
        }
        let ghost before = out@;
        out.push(s[i]);
        i += 1;
        assert(before + unsourced_from(s@, i - 1) =~= out@ + unsourced_from(s@, i as int));
    }
    assert(out@ + unsourced_from(s@, i as int) =~= out@);
    out
}

fn replace_all(s: &Vec<char>, p: &Vec<char>, r: &Vec<char>) -> (out: Vec<char>)
    ensures
        out@ == replaced_from(s@, p@, r@, 0),
{
    let mut out: Vec<char> = Vec::new();
    let mut i: usize = 0;
    while i < s.len()
        invariant
            i <= s.len(),
            out@ + replaced_from(s@, p@, r@, i as int) == replaced_from(s@, p@, r@, 0),
        decreases s.len() - i,
    {
        let ghost before = out@;
        let ghost at = i as int;
        if p.len() > 0 && matches_at(s, i, p) {
            append_chars(&mut out, r, 0);
            assert(r@.subrange(0, r@.len() as int) =~= r@);
            i += p.len();
        } else {
            out.push(s[i]);
            i += 1;
        }
        assert(before + replaced_from(s@, p@, r@, at) =~= out@ + replaced_from(s@, p@, r@, i as int));
    }
    assert(out@ + replaced_from(s@, p@, r@, i as int) =~= out@);
    out
}

/// The literals of the root grammar, held once as characters.
struct RootLiterals {
    content: Vec<char>,
    loader_titles: Vec<char>,
    loader_contents: Vec<char>,
    base_title: Vec<char>,
    title_stem: Vec<char>,
    romfs: Vec<char>,
    aoc_full: Vec<char>,
    aoc: Vec<char>,
}

impl RootLiterals {
    spec fn wf(&self) -> bool {
        &&& self.content@ == "content/"@
        &&& self.loader_titles@ == "atmosphere/titles/"@
        &&& self.loader_contents@ == "atmosphere/contents/"@
        &&& self.base_title@ == "01007ef00011e000/romfs/"@
        &&& self.title_stem@ == "01007ef00011"@
        &&& self.romfs@ == "/romfs/"@
        &&& self.aoc_full@ == "aoc/0010/"@
        &&& self.aoc@ == "aoc/"@
        &&& self.title_stem@.len() == 12
        &&& self.romfs@.len() == 7
        &&& self.base_title@.len() == 23
    }

    fn new() -> (r: RootLiterals)
        ensures
            r.wf(),
    {
        proof {
            reveal_strlit("01007ef00011");
            reveal_strlit("/romfs/");
            reveal_strlit("01007ef00011e000/romfs/");
        }
        RootLiterals {
            content: chars_of("content/"),
            loader_titles: chars_of("atmosphere/titles/"),
            loader_contents: chars_of("atmosphere/contents/"),
            base_title: chars_of("01007ef00011e000/romfs/"),
            title_stem: chars_of("01007ef00011"),
            romfs: chars_of("/romfs/"),
            aoc_full: chars_of("aoc/0010/"),
            aoc: chars_of("aoc/"),
        }
    }

    fn loader_prefix(&self, s: &Vec<char>, i: usize) -> (p: usize)
        requires
            self.wf(),
        ensures
            p as int == loader_prefix_len(s@, i as int),
            p > 0 ==> i + p <= s.len(),
    {
        if matches_at_nocase(s, i, &self.loader_titles) {
            self.loader_titles.len()
        } else if matches_at_nocase(s, i, &self.loader_contents) {
            self.loader_contents.len()
        } else {
            0
        }
    }

    fn dlc_title(&self, s: &Vec<char>, i: usize) -> (r: bool)
        requires
            self.wf(),
        ensures
            r == dlc_title_at(s@, i as int),
    {
        if !matches_at_nocase(s, i, &self.title_stem) {
            return false;
        }
        if s.len() - i < 16 || !matches_at_nocase(s, i + 16, &self.romfs) {
            return false;
        }
        let v = s[i + 12];
        (letter_matches(v, 'e') || letter_matches(v, 'f')) && s[i + 13] == '0' && s[i + 14]
            == '0' && '0' <= s[i + 15] && s[i + 15] <= '2'
    }

    /// The root at `i`, as its length and its family.
    fn root(&self, s: &Vec<char>, i: usize) -> (r: (usize, bool))
        requires
            self.wf(),
        ensures
            r.0 as int == root_at(s@, i as int).0,
            r.1 == root_at(s@, i as int).1,
            r.0 > 0 ==> i + r.0 <= s.len(),
    {
        let p = self.loader_prefix(s, i);
        if matches_at_nocase(s, i, &self.content) {
            (self.content.len(), true)
        } else if p > 0 && matches_at_nocase(s, i + p, &self.base_title) {
            (p + 23, true)
        } else if matches_at_nocase(s, i, &self.base_title) {
            (23, true)
        } else if matches_at_nocase(s, i, &self.aoc_full) {
            (self.aoc_full.len(), false)
        } else if matches_at_nocase(s, i, &self.aoc) {
            (self.aoc.len(), false)
        } else if p > 0 && self.dlc_title(s, i + p) {
            (p + 23, false)
        } else if self.dlc_title(s, i) {
            (23, false)
        } else {
            (0, false)
        }
    }

    fn mark_roots(&self, s: &Vec<char>) -> (r: Vec<char>)
        requires
            self.wf(),
        ensures
            r@ == marked_from(s@, 0),
    {
        let mut out: Vec<char> = Vec::new();
        let mut i: usize = 0;
        while i < s.len()
            invariant
                self.wf(),
                i <= s.len(),
                out@ + marked_from(s@, i as int) == marked_from(s@, 0),
            decreases s.len() - i,
        {
            let ghost before = out@;
            let ghost at = i as int;
            let (len, base) = self.root(s, i);
            if len > 0 {
                if base {
                    append_chars(&mut out, &self.content, 0);
                    assert(self.content@.subrange(0, self.content@.len() as int) =~= self.content@);
                } else {
                    append_chars(&mut out, &self.aoc_full, 0);
                    assert(self.aoc_full@.subrange(0, self.aoc_full@.len() as int) =~= self.aoc_full@);
                }
                i += len;
            } else {
                out.push(s[i]);
                i += 1;
            }
            assert(before + marked_from(s@, at) =~= out@ + marked_from(s@, i as int));
        }
        assert(out@ + marked_from(s@, i as int) =~= out@);
        out
    }
}

fn string_of(v: &Vec<char>, from: usize) -> (r: String)
    requires
        from <= v.len(),
    ensures
        r@ == v@.subrange(from as int, v.len() as int),
{
    let mut r = String::new();
    push_range(&mut r, v, from);
    r
}

/// Converts a path relative to a game content root into its canonical resource path:
/// separators become forward slashes, the first ".s" becomes ".", the base-content or
/// downloadable-content root is recognized and replaced by its marker, and the marked
/// path is classified. Returns `None` where the path lies under no recognized root.
pub fn get_canon_name(file_path: &str) -> (r: Option<String>)
    ensures
        match r {
            Some(c) => canon_name(file_path@) == Some(c@),
            None => canon_name(file_path@) is None,
        },
{
    let lits = RootLiterals::new();
    let raw = chars_of(file_path);
    let n = lits.mark_roots(&unsource(&slash_chars(&raw)));
    if matches_at(&n, 0, &lits.aoc) {
        let t = replace_all(&n, &chars_of("aoc/content"), &chars_of("Aoc"));
        let low = chars_of("aoc");
        if matches_at(&t, 0, &low) {
            let mut out = String::new();
            push_all(&mut out, &chars_of("Aoc"));
            push_range(&mut out, &t, low.len());
            Some(out)
        } else {
            Some(string_of(&t, 0))
        }
    } else if matches_at(&n, 0, &chars_of("content")) && !occurs(&n, &chars_of("/aoc")) {
        if matches_at(&n, 0, &lits.content) {
            Some(string_of(&n, lits.content.len()))
        } else {
            Some(string_of(&n, 0))
        }
    } else {
        None
    }
}

/// Converts a bare resource path, one already relative to a known root (such as a path
/// inside an archive), into its canonical form: separators become forward slashes and
/// the first ".s" becomes ".".
pub fn get_canon_name_without_root(file_path: &str) -> (r: String)
    ensures
        r@ == without_root(file_path@),
{
    let v = unsource(&slash_chars(&chars_of(file_path)));
    string_of(&v, 0)
}

/// Normalizing a path without a root leaves a canonical path as it is, so normalizing
/// twice gives what normalizing once gives.
pub proof fn lemma_without_root_idempotent(p: Seq<char>)
    requires
        is_canonical(p),
    ensures
        without_root(p) == p,
        without_root(without_root(p)) == without_root(p),
{
    assert(slashed(p) =~= p);
    lemma_unsourced_keeps(p, 0);
    assert(p.subrange(0, p.len() as int) =~= p);
}

proof fn lemma_unsourced_keeps(p: Seq<char>, i: int)
    requires
        0 <= i <= p.len(),
        !occurs_in(p, ".s"@),
    ensures
        unsourced_from(p, i) == p.subrange(i, p.len() as int),
    decreases p.len() - i,
{
    if i < p.len() {
        if i + 1 < p.len() && p[i] == '.' && p[i + 1] == 's' {
            reveal_strlit(".s");
            assert(p.subrange(i, i + 2) =~= ".s"@);
            assert(holds_at(p, i, ".s"@));
        } else {
            lemma_unsourced_keeps(p, i + 1);
            assert(seq![p[i]] + p.subrange(i + 1, p.len() as int) =~= p.subrange(i, p.len() as int));
        }
    } else {
        assert(p.subrange(i, p.len() as int) =~= Seq::<char>::empty());
    }
}

} // verus!
