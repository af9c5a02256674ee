//! Round-robin frame sequencing over the files of an image directory.
//!
//! A directory's file paths are sorted once, by the bytes of their UTF-8
//! encoding (the order of Rust strings), and then handed out one after the
//! other, wrapping around at the end. The listing is a snapshot: it is never
//! re-read for the lifetime of the cache.
use vstd::prelude::*;
use vstd::utf8::encode_utf8;

verus! {

broadcast use vstd::seq_lib::group_to_multiset_ensures;

/// Lexicographic order on byte strings; a proper prefix comes first.
pub open spec fn bytes_lt(a: Seq<u8>, b: Seq<u8>) -> bool
    decreases a.len(),
{
    if a.len() == 0 {
        b.len() > 0
    } else if b.len() == 0 {
        false
    } else if a[0] != b[0] {
        a[0] < b[0]
    } else {
        bytes_lt(a.drop_first(), b.drop_first())
    }
}

/// `a` sorts strictly before `b`: compared by their UTF-8 bytes.
pub open spec fn path_lt(a: Seq<char>, b: Seq<char>) -> bool {
    bytes_lt(encode_utf8(a), encode_utf8(b))
}

/// No path is followed by one that sorts strictly before it.
pub open spec fn paths_sorted(s: Seq<String>) -> bool {
    forall|i: int, j: int| 0 <= i < j < s.len() ==> !path_lt(#[trigger] s[j]@, #[trigger] s[i]@)
}

proof fn lemma_bytes_lt_irreflexive(a: Seq<u8>)
    ensures
        !bytes_lt(a, a),
    decreases a.len(),
{
    if a.len() > 0 {
        lemma_bytes_lt_irreflexive(a.drop_first());
    }
}

proof fn lemma_bytes_lt_transitive(a: Seq<u8>, b: Seq<u8>, c: Seq<u8>)
    requires
        bytes_lt(a, b),
        bytes_lt(b, c),
    ensures
        bytes_lt(a, c),
    decreases a.len(),
{
    if a.len() > 0 && a[0] == b[0] && b[0] == c[0] {
        lemma_bytes_lt_transitive(a.drop_first(), b.drop_first(), c.drop_first());
    }
}

/// Compares two paths in the sort order of the frame cache.
pub fn path_less(a: &String, b: &String) -> (r: bool)
    ensures
        r == path_lt(a@, b@),
{
    let x = a.as_str().as_bytes();
    let y = b.as_str().as_bytes();
    let ghost xs = x@;
    let ghost ys = y@;
    assert(xs.skip(0) =~= xs);
    assert(ys.skip(0) =~= ys);
    let mut i: usize = 0;
    loop
        invariant
            x@ == xs,
            y@ == ys,
            xs == encode_utf8(a@),
            ys == encode_utf8(b@),
            i <= xs.len(),
            i <= ys.len(),
            bytes_lt(xs, ys) == bytes_lt(xs.skip(i as int), ys.skip(i as int)),
        decreases xs.len() - i,
    {
        if i == x.len() {
            return i < y.len();
        }
        if i == y.len() {
            return false;
        }
        if x[i] != y[i] {
            return x[i] < y[i];
        }
        assert(xs.skip(i as int).drop_first() =~= xs.skip(i + 1));
        assert(ys.skip(i as int).drop_first() =~= ys.skip(i + 1));
        i += 1;
    }
}

/// Sorts paths in the frame cache's order.
pub fn sort_paths(paths: &Vec<String>) -> (r: Vec<String>)
    ensures
        paths_sorted(r@),
        r@.to_multiset() == paths@.to_multiset(),
{
    let mut sorted: Vec<String> = Vec::new();
    let mut i: usize = 0;
    while i < paths.len()
        invariant
            i <= paths.len(),
            paths_sorted(sorted@),
            sorted@.to_multiset() == paths@.subrange(0, i as int).to_multiset(),
        decreases paths.len() - i,
    {
        let b = paths[i].clone();
        let mut p: usize = 0;
        while p < sorted.len() && !path_less(&b, &sorted[p])
            invariant
                p <= sorted.len(),
                forall|k: int| 0 <= k < p ==> !path_lt(b@, #[trigger] sorted@[k]@),
            decreases sorted.len() - p,
        {
            p += 1;
        }
        let ghost old_sorted = sorted@;
        sorted.insert(p, b);
        proof {
            assert forall|k: int| p <= k < old_sorted.len() implies !path_lt(#[trigger] old_sorted[k]@, b@) by {
                if path_lt(old_sorted[k]@, b@) {
                    let sp = encode_utf8(old_sorted[p as int]@);
                    lemma_bytes_lt_transitive(encode_utf8(old_sorted[k]@), encode_utf8(b@), sp);
                    if k == p {
                        lemma_bytes_lt_irreflexive(sp);
                    } else {
                        assert(!path_lt(old_sorted[k]@, old_sorted[p as int]@));
                    }
                }
            }
            assert forall|m: int, n: int| 0 <= m < n < sorted@.len() implies !path_lt(
                #[trigger] sorted@[n]@,
                #[trigger] sorted@[m]@,
            ) by {
                if n < p {
                } else if n == p {
                    assert(sorted@[m] == old_sorted[m]);
                } else if m < p {
                    assert(sorted@[n] == old_sorted[n - 1]);
                    assert(sorted@[m] == old_sorted[m]);
                    assert(!path_lt(old_sorted[n - 1]@, old_sorted[m]@));
                } else if m == p {
                    assert(sorted@[n] == old_sorted[n - 1]);
                } else {
                    assert(sorted@[n] == old_sorted[n - 1]);
                    assert(sorted@[m] == old_sorted[m - 1]);
                }
            }
            assert(paths@.subrange(0, i + 1) =~= paths@.subrange(0, i as int).push(paths@[i as int]));
        }
        i += 1;
    }
    assert(paths@.subrange(0, paths.len() as int) =~= paths@);
    sorted
}

/// Model of a frame cache: the sorted listing and the cursor.
pub struct FrameCacheView {
    pub frames: Seq<String>,
    pub index: int,
}

/// The cursor points into the listing (or is 0 for an empty one).
pub open spec fn cache_wf(v: FrameCacheView) -> bool {
    if v.frames.len() == 0 {
        v.index == 0
    } else {
        0 <= v.index < v.frames.len()
    }
}

/// What one request answers: the path under the cursor, if any.
pub open spec fn cache_output(v: FrameCacheView) -> Option<String> {
    if v.frames.len() == 0 {
        None
    } else {
        Some(v.frames[v.index])
    }
}

/// One request advances the cursor by one, wrapping at the end.
pub open spec fn cache_step(v: FrameCacheView) -> FrameCacheView {
    if v.frames.len() == 0 {
        v
    } else {
        FrameCacheView { index: (v.index + 1) % (v.frames.len() as int), ..v }
    }
}

/// The cache after `k` requests.
pub open spec fn cache_after(v: FrameCacheView, k: nat) -> FrameCacheView
    decreases k,
{
    if k == 0 {
        v
    } else {
        cache_step(cache_after(v, (k - 1) as nat))
    }
}

/// A fresh cache over a listing: sorted, holding exactly the listed paths, cursor at the start.
pub open spec fn fresh_cache_of(v: FrameCacheView, files: Seq<String>) -> bool {
    &&& paths_sorted(v.frames)
    &&& v.frames.to_multiset() == files.to_multiset()
    &&& v.index == 0
}

/// Round-robin sequencer over one directory's sorted file listing.
pub struct FrameCache {
    frames: Vec<String>,
    index: usize,
}

impl View for FrameCache {
    type V = FrameCacheView;

    closed spec fn view(&self) -> FrameCacheView {
        FrameCacheView { frames: self.frames@, index: self.index as int }
    }
}

impl FrameCache {
    /// A cache over a directory listing: the paths are sorted once, the cursor
    /// starts at the first.
    pub fn new(files: Vec<String>) -> (c: Self)
        ensures
            cache_wf(c@),
            fresh_cache_of(c@, files@),
    {
        let frames = sort_paths(&files);
        proof {
            if frames@.len() == 0 {
                assert(files@.len() == files@.to_multiset().len());
            }
        }
        FrameCache { frames, index: 0 }
    }

    /// The path under the cursor, then the cursor moves on, wrapping at the
    /// end; `None` for an empty listing.
    pub fn next_frame(&mut self) -> (r: Option<String>)
        requires
            cache_wf(old(self)@),
        ensures
            cache_wf(final(self)@),
            r == cache_output(old(self)@),
            final(self)@ == cache_step(old(self)@),
    {
        if self.frames.len() == 0 {
            None
        } else {
            let path = self.frames[self.index].clone();
            self.index = (self.index + 1) % self.frames.len();
            Some(path)
        }
    }
}

/// Sorts a directory listing and returns the path at `*index` (taken modulo
/// the number of files), moving `*index` on by one modulo that number; `None`,
/// with `*index` unchanged, for an empty listing.
pub fn pick_frame(files: Vec<String>, index: &mut usize) -> (r: Option<String>)
    ensures
        match r {
            None => files@.len() == 0 && *final(index) == *old(index),
            Some(p) => {
                &&& files@.len() > 0
                &&& *final(index) == (*old(index) as int + 1) % (files@.len() as int)
                &&& exists|s: Seq<String>| #[trigger] paths_sorted(s) && s.to_multiset() == files@.to_multiset()
                &&& forall|s: Seq<String>|
                    #[trigger] paths_sorted(s) && s.to_multiset() == files@.to_multiset() ==> s.len() == files@.len()
                        && p@ == s[*old(index) as int % files@.len() as int]@
            },
        },
{
    let frames = sort_paths(&files);
    proof {
        frames@.to_multiset_ensures();
        files@.to_multiset_ensures();
    }
    if frames.len() == 0 {
        None
    } else {
        let n = frames.len();
        let path = frames[*index % n].clone();
        *index = (*index % n + 1) % n;
        proof {
            assert forall|s: Seq<String>|
                #[trigger] paths_sorted(s) && s.to_multiset() == files@.to_multiset() implies s.len() == files@.len()
                    && path@ == s[*old(index) as int % files@.len() as int]@ by {
                s.to_multiset_ensures();
                lemma_sorted_unique(frames@, s);
                let q = *old(index) as int % n as int;
                assert(path_views(frames@)[q] == path_views(s)[q]);
            }
            assert(paths_sorted(frames@));
            vstd::arithmetic::div_mod::lemma_add_mod_noop_right(1, *old(index) as int, n as int);
        }
        Some(path)
    }
}

/// From a fresh cache over `N ≥ 1` files, request `k` (counting from 0) answers
/// file `k mod N` of the sorted listing: the first `N` requests give the
/// listing in order, and request `N` wraps to the first file again.
pub proof fn lemma_round_robin(v: FrameCacheView, k: nat)
    requires
        v.frames.len() >= 1,
        v.index == 0,
    ensures
        cache_after(v, k).frames == v.frames,
        cache_after(v, k).index == k as int % (v.frames.len() as int),
        cache_output(cache_after(v, k)) == Some(v.frames[k as int % (v.frames.len() as int)]),
    decreases k,
{
    let n = v.frames.len() as int;
    if k == 0 {
        assert(0int % n == 0) by (nonlinear_arith)
            requires
                n >= 1,
        ;
    } else {
        lemma_round_robin(v, (k - 1) as nat);
        vstd::arithmetic::div_mod::lemma_add_mod_noop_right(1, k - 1, n);
        vstd::arithmetic::div_mod::lemma_mod_bound(k as int, n);
    }
}

proof fn lemma_bytes_lt_total(a: Seq<u8>, b: Seq<u8>)
    requires
        a != b,
    ensures
        bytes_lt(a, b) || bytes_lt(b, a),
    decreases a.len(),
{
    if a.len() > 0 && b.len() > 0 && a[0] == b[0] {
        if a.drop_first() == b.drop_first() {
            assert(a =~= seq![a[0]] + a.drop_first());
            assert(b =~= seq![b[0]] + b.drop_first());
        }
        lemma_bytes_lt_total(a.drop_first(), b.drop_first());
    } else if a.len() == 0 && b.len() == 0 {
        assert(a =~= b);
    }
}

/// Two different paths are ordered one way or the other.
proof fn lemma_path_lt_total(a: Seq<char>, b: Seq<char>)
    requires
        a != b,
    ensures
        path_lt(a, b) || path_lt(b, a),
{
    vstd::utf8::encode_utf8_decode_utf8(a);
    vstd::utf8::encode_utf8_decode_utf8(b);
    lemma_bytes_lt_total(encode_utf8(a), encode_utf8(b));
}

pub open spec fn path_views(s: Seq<String>) -> Seq<Seq<char>> {
    s.map_values(|p: String| p@)
}

/// A sorted arrangement of some paths is unique: any two agree path by path.
pub proof fn lemma_sorted_unique(s: Seq<String>, t: Seq<String>)
    requires
        paths_sorted(s),
        paths_sorted(t),
        s.to_multiset() == t.to_multiset(),
    ensures
        path_views(s) == path_views(t),
    decreases s.len(),
{
    s.to_multiset_ensures();
    t.to_multiset_ensures();
    if s.len() == 0 {
        assert(path_views(s) =~= path_views(t));
    } else {
        let x = s[0];
        assert(s.to_multiset().count(x) > 0);
        assert(t.contains(x));
        let j = choose|j: int| 0 <= j < t.len() && t[j] == x;
        assert(t.to_multiset().count(t[0]) > 0);
        assert(s.contains(t[0]));
        let i = choose|i: int| 0 <= i < s.len() && s[i] == t[0];
        if x@ != t[0]@ {
            lemma_path_lt_total(x@, t[0]@);
            if path_lt(x@, t[0]@) {
                assert(j > 0);
                assert(!path_lt(t[j]@, t[0]@));
            } else {
                assert(i > 0);
                assert(!path_lt(s[i]@, s[0]@));
            }
        }
        // every path of t up to position j reads as x
        assert forall|m: int| 0 <= m <= j implies (#[trigger] t[m])@ == x@ by {
            if t[m]@ != x@ && m != j && m != 0 {
                lemma_path_lt_total(t[m]@, x@);
                assert(!path_lt(t[m]@, t[0]@));
                assert(!path_lt(t[j]@, t[m]@));
            }
        }
        let s1 = s.drop_first();
        let t1 = t.remove(j);
        assert(s1 =~= s.remove(0));
        assert forall|a: int, b: int| 0 <= a < b < s1.len() implies !path_lt(
            #[trigger] s1[b]@,
            #[trigger] s1[a]@,
        ) by {
            assert(s1[a] == s[a + 1] && s1[b] == s[b + 1]);
        }
        assert forall|a: int, b: int| 0 <= a < b < t1.len() implies !path_lt(
            #[trigger] t1[b]@,
            #[trigger] t1[a]@,
        ) by {
            let a0 = if a < j { a } else { a + 1 };
            let b0 = if b < j { b } else { b + 1 };
            assert(t1[a] == t[a0] && t1[b] == t[b0]);
        }
        lemma_sorted_unique(s1, t1);
        assert forall|p: int| 0 <= p < s.len() implies path_views(s)[p] == path_views(t)[p] by {
            if p > 0 {
                assert(path_views(s1)[p - 1] == path_views(t1)[p - 1]);
                if p - 1 < j {
                    assert(t1[p - 1] == t[p - 1]);
                    assert(t[p - 1]@ == x@ && t[p]@ == x@);
                } else {
                    assert(t1[p - 1] == t[p]);
                }
            }
        }
        assert(path_views(s) =~= path_views(t));
    }
}

/// A fresh cache over the `N ≥ 1` files of a directory answers, on request `k`
/// (counting from 0), path `k mod N` of the directory's sorted listing `s`:
/// the first `N` requests give the listing in order, and request `N` gives the
/// first path again.
pub proof fn lemma_fresh_cache_round_robin(c: FrameCacheView, files: Seq<String>, s: Seq<String>, k: nat)
    requires
        fresh_cache_of(c, files),
        paths_sorted(s),
        s.to_multiset() == files.to_multiset(),
        files.len() >= 1,
    ensures
        s.len() == files.len(),
        cache_output(cache_after(c, k)) is Some,
        cache_output(cache_after(c, k))->Some_0@ == s[k as int % (files.len() as int)]@,
{
    files.to_multiset_ensures();
    s.to_multiset_ensures();
    c.frames.to_multiset_ensures();
    lemma_sorted_unique(c.frames, s);
    lemma_round_robin(c, k);
    let n = files.len() as int;
    vstd::arithmetic::div_mod::lemma_mod_bound(k as int, n);
    assert(path_views(c.frames)[k as int % n] == path_views(s)[k as int % n]);
}

/// A cache built over an empty listing answers every request with nothing.
pub proof fn lemma_empty_listing_answers_none(c: FrameCacheView, files: Seq<String>, k: nat)
    requires
        fresh_cache_of(c, files),
        files.len() == 0,
    ensures
        cache_output(cache_after(c, k)) is None,
    decreases k,
{
    files.to_multiset_ensures();
    c.frames.to_multiset_ensures();
    if k > 0 {
        lemma_empty_listing_answers_none(c, files, (k - 1) as nat);
    }
    lemma_cache_after_frames(c, k);
}

proof fn lemma_cache_after_frames(c: FrameCacheView, k: nat)
    ensures
        cache_after(c, k).frames == c.frames,
    decreases k,
{
    if k > 0 {
        lemma_cache_after_frames(c, (k - 1) as nat);
    }
}

/// Model of the per-directory caches: each requested directory's cache.
pub struct FrameCaches {
    dirs: Vec<String>,
    caches: Vec<FrameCache>,
}

impl View for FrameCaches {
    type V = Map<Seq<char>, FrameCacheView>;

    closed spec fn view(&self) -> Map<Seq<char>, FrameCacheView> {
        Map::new(
            |d: Seq<char>| exists|i: int| 0 <= i < self.dirs@.len() && self.dirs@[i]@ == d,
            |d: Seq<char>| {
                let i = choose|i: int| 0 <= i < self.dirs@.len() && self.dirs@[i]@ == d;
                self.caches@[i]@
            },
        )
    }
}

impl FrameCaches {
    /// One entry per directory, each cache well formed.
    pub closed spec fn wf(&self) -> bool {
        &&& self.dirs@.len() == self.caches@.len()
        &&& forall|i: int, j: int|
            0 <= i < j < self.dirs@.len() ==> (#[trigger] self.dirs@[i])@ != (#[trigger] self.dirs@[j])@
        &&& forall|i: int| 0 <= i < self.caches@.len() ==> cache_wf(#[trigger] self.caches@[i]@)
    }

    proof fn lemma_view_at(&self, i: int)
        requires
            self.wf(),
            0 <= i < self.dirs@.len(),
        ensures
            self@.contains_key(self.dirs@[i]@),
            self@[self.dirs@[i]@] == self.caches@[i]@,
    {
        let d = self.dirs@[i]@;
        assert(self@.dom().contains(d));
        let j = choose|j: int| 0 <= j < self.dirs@.len() && self.dirs@[j]@ == d;
        if j != i {
            if j < i {
                assert(self.dirs@[j]@ != self.dirs@[i]@);
            } else {
                assert(self.dirs@[i]@ != self.dirs@[j]@);
            }
        }
    }

    /// No directory has been requested yet.
    pub fn new() -> (c: Self)
        ensures
            c.wf(),
            c@ == Map::<Seq<char>, FrameCacheView>::empty(),
    {
        let c = FrameCaches { dirs: Vec::new(), caches: Vec::new() };
        assert(c@ =~= Map::<Seq<char>, FrameCacheView>::empty());
        c
    }

    fn position(&self, dir: &String) -> (r: Option<usize>)
        requires
            self.wf(),
        ensures
            match r {
                Some(i) => i < self.dirs@.len() && self.dirs@[i as int]@ == dir@,
                None => !self@.contains_key(dir@),
            },
    {
        let mut i: usize = 0;
        while i < self.dirs.len()
            invariant
                i <= self.dirs@.len(),
                forall|j: int| 0 <= j < i ==> (#[trigger] self.dirs@[j])@ != dir@,
            decreases self.dirs@.len() - i,
        {
            if self.dirs[i] == *dir {
                return Some(i);
            }
            i += 1;
        }
        None
    }

    /// Whether `dir` already has a cache.
    pub fn contains(&self, dir: &String) -> (r: bool)
        requires
            self.wf(),
        ensures
            r == self@.contains_key(dir@),
    {
        match self.position(dir) {
            Some(i) => {
                proof {
                    self.lemma_view_at(i as int);
                }
                true
            },
            None => false,
        }
    }

    /// Creates the cache of `dir` from its listing, if it has none yet; an
    /// existing cache keeps its snapshot and cursor.
    pub fn insert(&mut self, dir: String, files: Vec<String>)
        requires
            old(self).wf(),
        ensures
            final(self).wf(),
            old(self)@.contains_key(dir@) ==> final(self)@ == old(self)@,
            !old(self)@.contains_key(dir@) ==> {
                &&& final(self)@.dom() == old(self)@.dom().insert(dir@)
                &&& forall|d: Seq<char>| #[trigger] old(self)@.contains_key(d) ==> final(self)@[d] == old(self)@[d]
                &&& cache_wf(final(self)@[dir@])
                &&& fresh_cache_of(final(self)@[dir@], files@)
            },
    {
        if self.position(&dir).is_some() {
            return;
        }
        let ghost old_self = *self;
        let cache = FrameCache::new(files);
        self.dirs.push(dir);
        self.caches.push(cache);
        proof {
            let n = old_self.dirs@.len() as int;
            assert(self.dirs@[n] == dir);
            assert(self.wf());
            self.lemma_view_at(n);
            assert forall|d: Seq<char>| #[trigger] old_self@.contains_key(d) implies self@.contains_key(d)
                && self@[d] == old_self@[d] by {
                let i = choose|i: int| 0 <= i < old_self.dirs@.len() && old_self.dirs@[i]@ == d;
                old_self.lemma_view_at(i);
                assert(self.dirs@[i] == old_self.dirs@[i]);
                assert(self.caches@[i] == old_self.caches@[i]);
                self.lemma_view_at(i);
            }
            assert forall|d: Seq<char>| #[trigger] self@.contains_key(d) implies old_self@.contains_key(d) || d == dir@ by {
                let i = choose|i: int| 0 <= i < self.dirs@.len() && self.dirs@[i]@ == d;
                if i < n {
                    assert(old_self.dirs@[i] == self.dirs@[i]);
                }
            }
            assert(self@.dom() =~= old_self@.dom().insert(dir@));
        }
    }

    /// Answers a frame request for `dir` from its cache and advances that cache;
    /// `None` and no change when `dir` has no cache.
    pub fn next_image(&mut self, dir: &String) -> (r: Option<String>)
        requires
            old(self).wf(),
        ensures
            final(self).wf(),
            !old(self)@.contains_key(dir@) ==> r is None && final(self)@ == old(self)@,
            old(self)@.contains_key(dir@) ==> {
                &&& r == cache_output(old(self)@[dir@])
                &&& final(self)@ == old(self)@.insert(dir@, cache_step(old(self)@[dir@]))
            },
    {
        match self.position(dir) {
            None => None,
            Some(i) => {
                let ghost old_self = *self;
                proof {
                    old_self.lemma_view_at(i as int);
                }
                let mut cache = self.caches.remove(i);
                assert(cache@ == old_self.caches@[i as int]@);
                assert(cache_wf(cache@));
                let r = cache.next_frame();
                self.caches.insert(i, cache);
                proof {
                    assert(self.caches@ =~= old_self.caches@.update(i as int, cache));
                    assert forall|j: int| 0 <= j < self.caches@.len() implies cache_wf(#[trigger] self.caches@[j]@) by {
                        if j != i {
                            assert(self.caches@[j] == old_self.caches@[j]);
                        }
                    }
                    assert(self.wf());
                    let expected = old_self@.insert(dir@, cache_step(old_self@[dir@]));
                    assert forall|d: Seq<char>| #[trigger] self@.contains_key(d) <==> expected.contains_key(d) by {
                        if expected.contains_key(d) && d != dir@ {
                            let j = choose|j: int| 0 <= j < old_self.dirs@.len() && old_self.dirs@[j]@ == d;
                            assert(self.dirs@[j]@ == d);
                        }
                    }
                    assert forall|d: Seq<char>| #[trigger] self@.contains_key(d) implies self@[d] == expected[d] by {
                        let j = choose|j: int| 0 <= j < self.dirs@.len() && self.dirs@[j]@ == d;
                        self.lemma_view_at(j);
                        old_self.lemma_view_at(j);
                        if j != i {
                            assert(self.caches@[j] == old_self.caches@[j]);
                        }
                    }
                    assert(self@ =~= expected);
                }
                r
            },
        }
    }
}

} // verus!
