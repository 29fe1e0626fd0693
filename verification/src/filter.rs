//! Ignore filter: name-pattern checks and the short-term memory that
//! suppresses the feedback loop caused by the normalizer's own output.
//!
//! Paths are handled as byte strings, as the operating system hands them
//! out; the surrounding program converts its path values to bytes.

use vstd::prelude::*;

verus! {

// ---------------------------------------------------------------------------
// Byte-string helpers
// ---------------------------------------------------------------------------

/// The needle occurs in the haystack starting at index `i`.
pub open spec fn is_sub_at(hay: Seq<u8>, needle: Seq<u8>, i: int) -> bool {
    &&& 0 <= i
    &&& i + needle.len() <= hay.len()
    &&& forall|j: int| 0 <= j < needle.len() ==> hay[i + j] == needle[j]
}

/// The needle occurs somewhere in the haystack.
pub open spec fn contains_sub(hay: Seq<u8>, needle: Seq<u8>) -> bool {
    exists|i: int| is_sub_at(hay, needle, i)
}

/// Substring search over byte strings.
pub fn contains_bytes(hay: &Vec<u8>, needle: &Vec<u8>) -> (r: bool)
    ensures
        r == contains_sub(hay@, needle@),
{
    let n = needle.len();
    let h = hay.len();
    if n > h {
        return false;
    }
    let mut i: usize = 0;
    while i <= h - n
        invariant
            n <= h,
            h == hay@.len(),
            n == needle@.len(),
            i <= h - n + 1,
            forall|k: int| 0 <= k < i ==> !is_sub_at(hay@, needle@, k),
        decreases h - n + 1 - i,
    {
        let mut j: usize = 0;
        let mut ok = true;
        while ok && j < n
            invariant
                n <= h,
                h == hay@.len(),
                n == needle@.len(),
                i <= h - n,
                j <= n,
                ok ==> forall|jj: int| 0 <= jj < j ==> hay@[i + jj] == needle@[jj],
                !ok ==> !is_sub_at(hay@, needle@, i as int),
            decreases n - j + if ok { 1int } else { 0int },
        {
            if hay[i + j] != needle[j] {
                ok = false;
            } else {
                j = j + 1;
            }
        }
        if ok {
            assert(is_sub_at(hay@, needle@, i as int));
            return true;
        }
        i = i + 1;
    }
    false
}

/// Byte-string equality.
pub fn bytes_eq(a: &Vec<u8>, b: &Vec<u8>) -> (r: bool)
    ensures
        r == (a@ == b@),
{
    if a.len() != b.len() {
        return false;
    }
    let mut i: usize = 0;
    while i < a.len()
        invariant
            a@.len() == b@.len(),
            i <= a@.len(),
            forall|k: int| 0 <= k < i ==> a@[k] == b@[k],
        decreases a@.len() - i,
    {
        if a[i] != b[i] {
            return false;
        }
        i = i + 1;
    }
    proof {
        assert(a@ =~= b@);
    }
    true
}

/// ASCII lowercasing of one byte.
pub open spec fn lower_byte(b: u8) -> u8 {
    if 65 <= b <= 90 {
        (b + 32) as u8
    } else {
        b
    }
}

/// ASCII lowercasing of a byte string.
pub open spec fn lower_seq(s: Seq<u8>) -> Seq<u8> {
    Seq::new(s.len(), |i: int| lower_byte(s[i]))
}

/// Lowercase a byte string (ASCII letters only, as extension matching needs).
pub fn to_ascii_lower(v: &Vec<u8>) -> (r: Vec<u8>)
    ensures
        r@ == lower_seq(v@),
{
    let mut out: Vec<u8> = Vec::new();
    let mut i: usize = 0;
    while i < v.len()
        invariant
            i <= v@.len(),
            out@.len() == i,
            forall|k: int| 0 <= k < i ==> out@[k] == lower_byte(v@[k]),
        decreases v@.len() - i,
    {
        let b = v[i];
        if 65 <= b && b <= 90 {
            out.push(b + 32);
        } else {
            out.push(b);
        }
        i = i + 1;
    }
    proof {
        assert(out@ =~= lower_seq(v@));
    }
    out
}

// ---------------------------------------------------------------------------
// Name markers
// ---------------------------------------------------------------------------

/// The temporary-file marker `"_tmp"`.
pub open spec fn tmp_marker() -> Seq<u8> {
    seq![95u8, 116u8, 109u8, 112u8]
}

/// The normalized-output marker `".normalized."`.
pub open spec fn norm_marker() -> Seq<u8> {
    seq![46u8, 110u8, 111u8, 114u8, 109u8, 97u8, 108u8, 105u8, 122u8, 101u8, 100u8, 46u8]
}

/// The temporary-file marker `"_tmp"`, as a byte string.
pub fn tmp_marker_bytes() -> (v: Vec<u8>)
    ensures
        v@ == tmp_marker(),
{
    let mut v: Vec<u8> = Vec::new();
    v.push(95);
    v.push(116);
    v.push(109);
    v.push(112);
    proof {
        assert(v@ =~= tmp_marker());
    }
    v
}

/// The normalized-output marker `".normalized."`, as a byte string.
pub fn norm_marker_bytes() -> (v: Vec<u8>)
    ensures
        v@ == norm_marker(),
{
    let mut v: Vec<u8> = Vec::new();
    v.push(46);
    v.push(110);
    v.push(111);
    v.push(114);
    v.push(109);
    v.push(97);
    v.push(108);
    v.push(105);
    v.push(122);
    v.push(101);
    v.push(100);
    v.push(46);
    proof {
        assert(v@ =~= norm_marker());
    }
    v
}

/// The path carries one of the markers that the normalizer's own
/// artifacts are named with.
pub open spec fn has_marker(path: Seq<u8>) -> bool {
    contains_sub(path, tmp_marker()) || contains_sub(path, norm_marker())
}

} // verus!

verus! {

// ---------------------------------------------------------------------------
// File extensions
// ---------------------------------------------------------------------------

/// A path separator byte (`/` or `\`).
pub open spec fn is_sep(b: u8) -> bool {
    b == 47 || b == 92
}

/// `d` is the index of the dot that starts the path's extension: the last
/// dot of the file name, not its first byte, with no separator after it.
pub open spec fn valid_ext_dot(p: Seq<u8>, d: int) -> bool {
    &&& 0 <= d < p.len()
    &&& p[d] == 46
    &&& forall|j: int| d < j < p.len() ==> p[j] != 46 && !is_sep(p[j])
    &&& d >= 1
    &&& !is_sep(p[d - 1])
}

/// At most one index starts the extension.
pub proof fn lemma_ext_dot_unique(p: Seq<u8>, d1: int, d2: int)
    requires
        valid_ext_dot(p, d1),
        valid_ext_dot(p, d2),
    ensures
        d1 == d2,
{
    if d1 < d2 {
        assert(p[d2] != 46);
    }
    if d2 < d1 {
        assert(p[d1] != 46);
    }
}

/// Copy a byte string.
pub fn copy_bytes(v: &Vec<u8>) -> (r: Vec<u8>)
    ensures
        r@ == v@,
{
    let mut out: Vec<u8> = Vec::new();
    let mut i: usize = 0;
    while i < v.len()
        invariant
            i <= v@.len(),
            out@.len() == i,
            forall|k: int| 0 <= k < i ==> out@[k] == v@[k],
        decreases v@.len() - i,
    {
        out.push(v[i]);
        i = i + 1;
    }
    proof {
        assert(out@ =~= v@);
    }
    out
}

/// The extension of the path, without its dot, or `None` where the path
/// has none.
pub fn extension_of(path: &Vec<u8>) -> (r: Option<Vec<u8>>)
    ensures
        match r {
            Some(e) => exists|d: int|
                valid_ext_dot(path@, d) && e@ == path@.subrange(d + 1, path@.len() as int),
            None => forall|d: int| !valid_ext_dot(path@, d),
        },
{
    let len = path.len();
    let mut i: usize = len;
    while i > 0
        invariant
            i <= len,
            len == path@.len(),
            forall|j: int| i <= j < len ==> path@[j] != 46 && !is_sep(path@[j]),
        decreases i,
    {
        let b = path[i - 1];
        if b == 46 {
            if i - 1 == 0 {
                return None;
            }
            let prev = path[i - 2];
            if prev == 47 || prev == 92 {
                return None;
            }
            let mut e: Vec<u8> = Vec::new();
            let mut k: usize = i;
            while k < len
                invariant
                    i <= k <= len,
                    len == path@.len(),
                    e@.len() == k - i,
                    forall|m: int| 0 <= m < e@.len() ==> e@[m] == path@[i + m],
                decreases len - k,
            {
                e.push(path[k]);
                k = k + 1;
            }
            proof {
                assert(valid_ext_dot(path@, i - 1));
                assert(e@ =~= path@.subrange(i as int, len as int));
            }
            return Some(e);
        }
        if b == 47 || b == 92 {
            proof {
                assert forall|d: int| !valid_ext_dot(path@, d) by {
                    if valid_ext_dot(path@, d) {
                        if d < i - 1 {
                            assert(path@[i - 1] != 46 && !is_sep(path@[i - 1]));
                        } else if d == i - 1 {
                            assert(path@[d] == 46);
                        } else {
                            assert(path@[d] != 46);
                        }
                    }
                }
            }
            return None;
        }
        i = i - 1;
    }
    None
}

/// The lowercased extension names one of the supported image codecs:
/// png, jpg, jpeg, bmp, gif, tiff or webp.
pub open spec fn supported_ext(s: Seq<u8>) -> bool {
    ||| s == seq![112u8, 110u8, 103u8]  // png
    ||| s == seq![106u8, 112u8, 103u8]  // jpg
    ||| s == seq![106u8, 112u8, 101u8, 103u8]  // jpeg
    ||| s == seq![98u8, 109u8, 112u8]  // bmp
    ||| s == seq![103u8, 105u8, 102u8]  // gif
    ||| s == seq![116u8, 105u8, 102u8, 102u8]  // tiff
    ||| s == seq![119u8, 101u8, 98u8, 112u8]  // webp
}

fn bytes3(a: u8, b: u8, c: u8) -> (v: Vec<u8>)
    ensures
        v@ == seq![a, b, c],
{
    let mut v: Vec<u8> = Vec::new();
    v.push(a);
    v.push(b);
    v.push(c);
    proof {
        assert(v@ =~= seq![a, b, c]);
    }
    v
}

fn bytes4(a: u8, b: u8, c: u8, d: u8) -> (v: Vec<u8>)
    ensures
        v@ == seq![a, b, c, d],
{
    let mut v: Vec<u8> = Vec::new();
    v.push(a);
    v.push(b);
    v.push(c);
    v.push(d);
    proof {
        assert(v@ =~= seq![a, b, c, d]);
    }
    v
}

/// Does the (already lowercased) extension name a supported codec?
pub fn is_supported_ext(ext: &Vec<u8>) -> (r: bool)
    ensures
        r == supported_ext(ext@),
{
    if bytes_eq(ext, &bytes3(112, 110, 103)) {
        return true;
    }
    if bytes_eq(ext, &bytes3(106, 112, 103)) {
        return true;
    }
    if bytes_eq(ext, &bytes4(106, 112, 101, 103)) {
        return true;
    }
    if bytes_eq(ext, &bytes3(98, 109, 112)) {
        return true;
    }
    if bytes_eq(ext, &bytes3(103, 105, 102)) {
        return true;
    }
    if bytes_eq(ext, &bytes4(116, 105, 102, 102)) {
        return true;
    }
    if bytes_eq(ext, &bytes4(119, 101, 98, 112)) {
        return true;
    }
    false
}

/// The path ends in a supported image extension, case-insensitively.
pub open spec fn path_has_image_ext(p: Seq<u8>) -> bool {
    exists|d: int|
        valid_ext_dot(p, d) && supported_ext(lower_seq(p.subrange(d + 1, p.len() as int)))
}

/// Does the path name an image file, by its extension alone?
pub fn is_image_file(path: &Vec<u8>) -> (r: bool)
    ensures
        r == path_has_image_ext(path@),
{
    match extension_of(path) {
        Some(e) => {
            let le = to_ascii_lower(&e);
            let r = is_supported_ext(&le);
            proof {
                let d = choose|d: int|
                    valid_ext_dot(path@, d) && e@ == path@.subrange(
                        d + 1,
                        path@.len() as int,
                    );
                if r {
                    assert(valid_ext_dot(path@, d) && supported_ext(
                        lower_seq(path@.subrange(d + 1, path@.len() as int)),
                    ));
                } else {
                    if path_has_image_ext(path@) {
                        let d2 = choose|d2: int|
                            valid_ext_dot(path@, d2) && supported_ext(
                                lower_seq(path@.subrange(d2 + 1, path@.len() as int)),
                            );
                        lemma_ext_dot_unique(path@, d, d2);
                    }
                }
            }
            r
        },
        None => {
            false
        },
    }
}

} // verus!

verus! {

// ---------------------------------------------------------------------------
// The ignore filter and its short-term memory
// ---------------------------------------------------------------------------

/// How long an accepted path stays in the short-term memory, in
/// milliseconds.
pub const RECENT_WINDOW_MS: u64 = 2000;

/// The ignore filter: marker checks plus the recently-processed memory.
/// An entry pairs a path with the time it was accepted; it counts as a
/// member until `window_ms` has elapsed, and the scheduled `remove` call
/// drops it within that window.
pub struct IgnoreFilter {
    pub entries: Vec<(Vec<u8>, u64)>,
    pub window_ms: u64,
}

impl IgnoreFilter {
    /// Each path appears at most once.
    pub open spec fn wf(self) -> bool {
        forall|i: int, j: int|
            0 <= i < j < self.entries@.len() ==> self.entries@[i].0@ != self.entries@[j].0@
    }

    /// The path is in the short-term memory at time `now`.
    pub open spec fn active(self, path: Seq<u8>, now: u64) -> bool {
        exists|i: int|
            0 <= i < self.entries@.len() && self.entries@[i].0@ == path && now
                < self.entries@[i].1 + self.window_ms
    }

    /// An empty filter with the given expiry window.
    pub fn new(window_ms: u64) -> (r: Self)
        ensures
            r.wf(),
            r.window_ms == window_ms,
            forall|p: Seq<u8>, n: u64| !r.active(p, n),
    {
        IgnoreFilter { entries: Vec::new(), window_ms }
    }

    fn find(&self, path: &Vec<u8>) -> (r: Option<usize>)
        ensures
            match r {
                Some(i) => i < self.entries@.len() && self.entries@[i as int].0@ == path@,
                None => forall|k: int|
                    0 <= k < self.entries@.len() ==> self.entries@[k].0@ != path@,
            },
    {
        let mut k: usize = 0;
        while k < self.entries.len()
            invariant
                k <= self.entries@.len(),
                forall|m: int| 0 <= m < k ==> self.entries@[m].0@ != path@,
            decreases self.entries@.len() - k,
        {
            if bytes_eq(&self.entries[k].0, path) {
                return Some(k);
            }
            k = k + 1;
        }
        None
    }

    /// Drop the path from the short-term memory. The surrounding program
    /// schedules this once per accepted path, after the expiry window.
    pub fn remove(&mut self, path: &Vec<u8>)
        requires
            old(self).wf(),
        ensures
            final(self).wf(),
            final(self).window_ms == old(self).window_ms,
            forall|n: u64| !final(self).active(path@, n),
            forall|q: Seq<u8>, n: u64|
                q != path@ ==> final(self).active(q, n) == old(self).active(q, n),
    {
        let ghost olde = self.entries@;
        let mut kept: Vec<(Vec<u8>, u64)> = Vec::new();
        let mut k: usize = 0;
        while k < self.entries.len()
            invariant
                self.entries@ == olde,
                k <= olde.len(),
                forall|i: int, j: int| 0 <= i < j < olde.len() ==> olde[i].0@ != olde[j].0@,
                forall|m: int|
                    0 <= m < kept@.len() ==> kept@[m].0@ != path@ && exists|j: int|
                        0 <= j < k && kept@[m].0@ == olde[j].0@ && kept@[m].1 == olde[j].1,
                forall|j: int|
                    0 <= j < k && olde[j].0@ != path@ ==> exists|m: int|
                        0 <= m < kept@.len() && kept@[m].0@ == olde[j].0@ && kept@[m].1
                            == olde[j].1,
                forall|m1: int, m2: int|
                    0 <= m1 < m2 < kept@.len() ==> kept@[m1].0@ != kept@[m2].0@,
            decreases olde.len() - k,
        {
            let ghost k0 = kept@;
            if !bytes_eq(&self.entries[k].0, path) {
                let p = copy_bytes(&self.entries[k].0);
                let t = self.entries[k].1;
                kept.push((p, t));
                proof {
                    assert(kept@[kept@.len() - 1].0@ == olde[k as int].0@);
                    assert(kept@[kept@.len() - 1].1 == olde[k as int].1);
                    assert forall|j: int| 0 <= j < k + 1 && olde[j].0@ != path@ implies exists|
                        m: int,
                    |
                        0 <= m < kept@.len() && kept@[m].0@ == olde[j].0@ && kept@[m].1
                            == olde[j].1 by {
                        if j < k {
                            let m = choose|m: int|
                                0 <= m < k0.len() && k0[m].0@ == olde[j].0@ && k0[m].1
                                    == olde[j].1;
                            assert(kept@[m].0@ == olde[j].0@ && kept@[m].1 == olde[j].1);
                        } else {
                            assert(kept@[kept@.len() - 1].0@ == olde[j].0@);
                        }
                    }
                    assert forall|m1: int, m2: int|
                        0 <= m1 < m2 < kept@.len() implies kept@[m1].0@ != kept@[m2].0@ by {
                        if m2 == kept@.len() - 1 {
                            let j = choose|j: int|
                                0 <= j < k && k0[m1].0@ == olde[j].0@ && k0[m1].1
                                    == olde[j].1;
                            assert(olde[j].0@ != olde[k as int].0@);
                        }
                    }
                }
            }
            k = k + 1;
        }
        self.entries = kept;
    }

    /// Decide whether a path should be ignored, at time `now`.
    ///
    /// A path carrying the temporary or normalized-output marker is
    /// always ignored, as is one still in the short-term memory.
    /// Accepting a path arms the memory for it: a repeat check within the
    /// window is ignored, one after the window is accepted again.
    pub fn should_ignore(&mut self, path: &Vec<u8>, now: u64) -> (r: bool)
        requires
            old(self).wf(),
        ensures
            final(self).wf(),
            final(self).window_ms == old(self).window_ms,
            has_marker(path@) ==> r && *final(self) == *old(self),
            !has_marker(path@) && old(self).active(path@, now) ==> r && *final(self)
                == *old(self),
            !has_marker(path@) && !old(self).active(path@, now) ==> !r && (forall|n: u64|
                final(self).active(path@, n) == (n < now + old(self).window_ms)) && (forall|
                q: Seq<u8>,
                n: u64,
            |
                q != path@ ==> final(self).active(q, n) == old(self).active(q, n)),
    {
        let tm = tmp_marker_bytes();
        if contains_bytes(path, &tm) {
            return true;
        }
        let nm = norm_marker_bytes();
        if contains_bytes(path, &nm) {
            return true;
        }
        match self.find(path) {
            Some(i) => {
                let t = self.entries[i].1;
                let hit = if now >= t {
                    now - t < self.window_ms
                } else {
                    true
                };
                if hit {
                    proof {
                        assert(old(self).active(path@, now));
                    }
                    return true;
                }
                proof {
                    assert forall|n: u64| old(self).active(path@, n) implies n < t
                        + old(self).window_ms by {
                        let j = choose|j: int|
                            0 <= j < old(self).entries@.len() && old(self).entries@[j].0@
                                == path@ && n < old(self).entries@[j].1
                                + old(self).window_ms;
                        if j != i {
                            assert(old(self).entries@[j].0@ != old(
                                self,
                            ).entries@[i as int].0@);
                        }
                    }
                }
                let p = copy_bytes(path);
                self.entries[i] = (p, now);
                proof {
                    assert forall|n: u64| self.active(path@, n) == (n < now + old(
                        self,
                    ).window_ms) by {
                        if n < now + old(self).window_ms {
                            assert(self.entries@[i as int].0@ == path@);
                            assert(self.active(path@, n));
                        }
                        if self.active(path@, n) {
                            let j = choose|j: int|
                                0 <= j < self.entries@.len() && self.entries@[j].0@ == path@ && n < self.entries@[j].1
                                    + self.window_ms;
                            if j != i {
                                assert(old(self).entries@[j].0@ == path@);
                            }
                        }
                    }
                    assert forall|q: Seq<u8>, n: u64| q != path@ implies self.active(q, n)
                        == old(self).active(q, n) by {
                        if self.active(q, n) {
                            let j = choose|j: int|
                                0 <= j < self.entries@.len() && self.entries@[j].0@ == q
                                    && n < self.entries@[j].1 + self.window_ms;
                            assert(j != i);
                            assert(old(self).entries@[j] == self.entries@[j]);
                            assert(old(self).active(q, n));
                        }
                        if old(self).active(q, n) {
                            let j = choose|j: int|
                                0 <= j < old(self).entries@.len() && old(self).entries@[j].0@
                                    == q && n < old(self).entries@[j].1 + old(
                                    self,
                                ).window_ms;
                            assert(j != i);
                            assert(self.entries@[j] == old(self).entries@[j]);
                            assert(self.active(q, n));
                        }
                    }
                }
                false
            },
            None => {
                let p = copy_bytes(path);
                self.entries.push((p, now));
                proof {
                    let ghost ne = self.entries@;
                    assert forall|n: u64| self.active(path@, n) == (n < now + old(
                        self,
                    ).window_ms) by {
                        if n < now + old(self).window_ms {
                            assert(ne[ne.len() - 1].0@ == path@);
                            assert(self.active(path@, n));
                        }
                        if self.active(path@, n) {
                            let j = choose|j: int|
                                0 <= j < ne.len() && ne[j].0@ == path@ && n < ne[j].1
                                    + self.window_ms;
                            if j != ne.len() - 1 {
                                assert(old(self).entries@[j].0@ == path@);
                            }
                        }
                    }
                    assert forall|q: Seq<u8>, n: u64| q != path@ implies self.active(
                        q,
                        n,
                    ) == old(self).active(q, n) by {
                        if self.active(q, n) {
                            let j = choose|j: int|
                                0 <= j < ne.len() && ne[j].0@ == q && n < ne[j].1 + self.window_ms;
                            assert(j != ne.len() - 1);
                            assert(old(self).active(q, n));
                        }
                        if old(self).active(q, n) {
                            let j = choose|j: int|
                                0 <= j < old(self).entries@.len() && old(self).entries@[j].0@
                                    == q && n < old(self).entries@[j].1 + old(
                                    self,
                                ).window_ms;
                            assert(ne[j] == old(self).entries@[j]);
                            assert(self.active(q, n));
                        }
                    }
                }
                false
            },
        }
    }
}

} // verus!
