//! Sandboxed path resolution.
//!
//! A request path is an untrusted string.  Resolution splits it into
//! `/`-separated segments and folds them into a stack of segments below the
//! root: normal segments are appended, `.` and empty segments are ignored,
//! and `..` pops one segment.  A `..` that would pop past the root is an
//! escape attempt and fails resolution; it is never silently clamped.

use vstd::prelude::*;

verus! {

/// Why a request path was refused by the resolver.
#[derive(Clone, Copy, PartialEq, Eq, Structural, Debug)]
pub enum PathError {
    /// The path attempted to leave the configured root.
    Escape,
    /// The filesystem could not be consulted while resolving.
    Io,
}

/// The path-segment separator.
pub open spec fn is_sep(c: char) -> bool {
    c == '/'
}

/// A segment that names the current directory.
pub open spec fn is_cur_seg(s: Seq<char>) -> bool {
    s.len() == 1 && s[0] == '.'
}

/// A segment that names the parent directory.
pub open spec fn is_parent_seg(s: Seq<char>) -> bool {
    s.len() == 2 && s[0] == '.' && s[1] == '.'
}

/// A segment resolution ignores: empty (from doubled or leading slashes) or `.`.
pub open spec fn is_skip_seg(s: Seq<char>) -> bool {
    s.len() == 0 || is_cur_seg(s)
}

/// A segment that is appended verbatim during resolution.
pub open spec fn is_normal_seg(s: Seq<char>) -> bool {
    !is_skip_seg(s) && !is_parent_seg(s)
}

/// No character of `s` is the separator.
pub open spec fn sep_free(s: Seq<char>) -> bool {
    forall|i: int| 0 <= i < s.len() ==> !is_sep(s[i])
}

/// A well-formed resolved path: every segment is a verbatim normal segment.
/// Such a path can never denote a location above the root.
pub open spec fn path_wf(p: Seq<Seq<char>>) -> bool {
    forall|i: int| 0 <= i < p.len() ==> is_normal_seg(#[trigger] p[i]) && sep_free(p[i])
}

/// Split a raw path into segments at every separator, keeping empty segments;
/// the empty string has a single empty segment.
pub open spec fn split_path(s: Seq<char>) -> Seq<Seq<char>>
    decreases s.len(),
{
    if s.len() == 0 {
        seq![Seq::<char>::empty()]
    } else if is_sep(s.last()) {
        split_path(s.drop_last()).push(Seq::<char>::empty())
    } else {
        let p = split_path(s.drop_last());
        p.update(p.len() - 1, p.last().push(s.last()))
    }
}

/// Fold one segment into the stack of segments accumulated below the root.
/// `None` marks an escape: a `..` arrived while the stack was empty.
pub open spec fn apply_seg(acc: Seq<Seq<char>>, seg: Seq<char>) -> Option<Seq<Seq<char>>> {
    if is_skip_seg(seg) {
        Some(acc)
    } else if is_parent_seg(seg) {
        if acc.len() == 0 {
            None
        } else {
            Some(acc.drop_last())
        }
    } else {
        Some(acc.push(seg))
    }
}

/// Fold a whole segment list, left to right; an escape anywhere is final.
pub open spec fn normalize_segs(segs: Seq<Seq<char>>) -> Option<Seq<Seq<char>>>
    decreases segs.len(),
{
    if segs.len() == 0 {
        Some(Seq::empty())
    } else {
        match normalize_segs(segs.drop_last()) {
            None => None,
            Some(acc) => apply_seg(acc, segs.last()),
        }
    }
}

/// What structural resolution of a raw request path yields: the list of
/// segments below the root, or `None` for an escape attempt.
pub open spec fn resolve_spec(s: Seq<char>) -> Option<Seq<Seq<char>>> {
    normalize_segs(split_path(s))
}

/// Splitting never yields an empty segment list.
pub proof fn lemma_split_nonempty(s: Seq<char>)
    ensures
        split_path(s).len() >= 1,
    decreases s.len(),
{
    if s.len() != 0 {
        lemma_split_nonempty(s.drop_last());
    }
}

/// No segment produced by splitting contains a separator.
pub proof fn lemma_split_sep_free(s: Seq<char>)
    ensures
        forall|j: int| 0 <= j < split_path(s).len() ==> sep_free(#[trigger] split_path(s)[j]),
    decreases s.len(),
{
    if s.len() == 0 {
    } else {
        lemma_split_sep_free(s.drop_last());
        lemma_split_nonempty(s.drop_last());
        if is_sep(s.last()) {
        } else {
            let p = split_path(s.drop_last());
            let q = split_path(s);
            assert forall|j: int| 0 <= j < q.len() implies sep_free(#[trigger] q[j]) by {
                if j == p.len() - 1 {
                    assert(q[j] == p.last().push(s.last()));
                } else {
                    assert(q[j] == p[j]);
                }
            }
        }
    }
}

/// An absolute path proven, at resolution time, to lie within the root:
/// the list of path segments below the root, each a verbatim normal segment.
/// The root itself is the empty list.
pub struct ResolvedPath {
    segments: Vec<String>,
}

impl View for ResolvedPath {
    type V = Seq<Seq<char>>;

    closed spec fn view(&self) -> Seq<Seq<char>> {
        self.segments.deep_view()
    }
}

impl ResolvedPath {
    /// Validity: every segment is normal and separator-free.
    pub open spec fn wf(&self) -> bool {
        path_wf(self@)
    }

    /// Does this path denote the root itself?
    pub open spec fn spec_is_root(&self) -> bool {
        self@.len() == 0
    }

    #[verifier::when_used_as_spec(spec_is_root)]
    pub fn is_root(&self) -> (r: bool)
        ensures
            r == self.spec_is_root(),
    {
        self.segments.len() == 0
    }

    /// The segments below the root, for joining onto the root directory.
    pub fn segments(&self) -> (r: &Vec<String>)
        ensures
            r.deep_view() == self@,
    {
        &self.segments
    }
}

/// Fold the segment `raw[start..end]` into the accumulated stack, exactly as
/// `apply_seg` does; returns false on an escape and leaves the stack unchanged.
fn apply_segment(acc: &mut Vec<String>, raw: &str, start: usize, end: usize) -> (ok: bool)
    requires
        start <= end <= raw@.len(),
        path_wf(old(acc).deep_view()),
        sep_free(raw@.subrange(start as int, end as int)),
    ensures
        ({
            let sval = raw@.subrange(start as int, end as int);
            match apply_seg(old(acc).deep_view(), sval) {
                Some(a2) => ok && final(acc).deep_view() == a2,
                None => !ok && final(acc).deep_view() == old(acc).deep_view(),
            }
        }),
        path_wf(final(acc).deep_view()),
{
    let ghost sval = raw@.subrange(start as int, end as int);
    let seg_len = end - start;
    if seg_len == 0 {
        true
    } else if seg_len == 1 && raw.get_char(start) == '.' {
        assert(is_cur_seg(sval));
        true
    } else if seg_len == 2 && raw.get_char(start) == '.' && raw.get_char(start + 1) == '.' {
        assert(is_parent_seg(sval));
        if acc.len() == 0 {
            false
        } else {
            acc.pop();
            proof {
                assert(acc.deep_view() =~= old(acc).deep_view().drop_last());
            }
            true
        }
    } else {
        proof {
            assert(!is_cur_seg(sval) && !is_parent_seg(sval));
        }
        let seg = raw.substring_char(start, end);
        acc.push(String::from_str(seg));
        proof {
            assert(acc.deep_view() =~= old(acc).deep_view().push(sval));
        }
        true
    }
}

/// Structural resolution of a raw request path against the root.
///
/// The empty string, `.`, and paths all of whose `..` segments stay at or
/// below the root resolve successfully; a `..` that would climb above the
/// root fails with `Escape`.  This step never touches the filesystem and
/// never fails with `Io`.
pub fn resolve_request_path(raw: &str) -> (r: Result<ResolvedPath, PathError>)
    ensures
        match r {
            Ok(p) => resolve_spec(raw@) == Some(p@) && p.wf(),
            Err(e) => e == PathError::Escape && resolve_spec(raw@) is None,
        },
{
    let n = raw.unicode_len();
    let mut acc: Vec<String> = Vec::new();
    let mut ok: bool = true;
    let mut start: usize = 0;
    let mut i: usize = 0;
    while i < n
        invariant
            n == raw@.len(),
            start <= i <= n,
            path_wf(acc.deep_view()),
            normalize_segs(split_path(raw@.take(i as int)).drop_last()) == (if ok {
                Some(acc.deep_view())
            } else {
                None::<Seq<Seq<char>>>
            }),
            ok ==> split_path(raw@.take(i as int)).last() == raw@.subrange(
                start as int,
                i as int,
            ),
        decreases n - i,
    {
        let c = raw.get_char(i);
        proof {
            assert(raw@.take(i + 1 as int).drop_last() =~= raw@.take(i as int));
            assert(raw@.take(i + 1 as int).last() == raw@[i as int]);
            lemma_split_nonempty(raw@.take(i as int));
        }
        if c == '/' {
            if ok {
                proof {
                    lemma_split_sep_free(raw@.take(i as int));
                }
                ok = apply_segment(&mut acc, raw, start, i);
                proof {
                    let prev = split_path(raw@.take(i as int));
                    assert(prev.drop_last().push(prev.last()) =~= prev);
                }
            }
            start = i + 1;
            proof {
                let cur = split_path(raw@.take(i + 1 as int));
                assert(cur.drop_last() =~= split_path(raw@.take(i as int)));
                assert(cur.last() =~= raw@.subrange(start as int, i + 1 as int));
            }
        } else {
            proof {
                let prev = split_path(raw@.take(i as int));
                let cur = split_path(raw@.take(i + 1 as int));
                assert(cur == prev.update(prev.len() - 1, prev.last().push(raw@[i as int])));
                assert(cur.drop_last() =~= prev.drop_last());
                if ok {
                    assert(cur.last() =~= raw@.subrange(start as int, i + 1 as int));
                }
            }
        }
        i = i + 1;
    }
    proof {
        assert(raw@.take(n as int) =~= raw@);
        lemma_split_nonempty(raw@);
    }
    if ok {
        proof {
            lemma_split_sep_free(raw@);
        }
        ok = apply_segment(&mut acc, raw, start, n);
        proof {
            let whole = split_path(raw@);
            assert(whole.drop_last().push(whole.last()) =~= whole);
        }
    }
    if ok {
        Ok(ResolvedPath { segments: acc })
    } else {
        Err(PathError::Escape)
    }
}

/// How one segment changes the depth below the root: `.` and empty segments
/// keep it, `..` lowers it, a normal segment raises it.
pub open spec fn seg_delta(seg: Seq<char>) -> int {
    if is_skip_seg(seg) {
        0
    } else if is_parent_seg(seg) {
        -1
    } else {
        1
    }
}

/// The net depth below the root after walking a segment list, with `..`
/// counted even past the root (so the value can go negative).
pub open spec fn net_depth(segs: Seq<Seq<char>>) -> int
    decreases segs.len(),
{
    if segs.len() == 0 {
        0
    } else {
        net_depth(segs.drop_last()) + seg_delta(segs.last())
    }
}

/// Some prefix of the walk dips above the root.
pub open spec fn dips_above_root(segs: Seq<Seq<char>>) -> bool {
    exists|i: int| 0 <= i <= segs.len() && net_depth(segs.take(i)) < 0
}

/// Resolution fails exactly when the walk would dip above the root, and a
/// successful resolution ends at depth equal to the walk's net depth.
pub proof fn lemma_escape_iff_dips(segs: Seq<Seq<char>>)
    ensures
        normalize_segs(segs) is None <==> dips_above_root(segs),
        normalize_segs(segs) matches Some(acc) ==> acc.len() == net_depth(segs),
    decreases segs.len(),
{
    if segs.len() == 0 {
        assert(segs.take(0) =~= segs);
        assert(!dips_above_root(segs)) by {
            assert forall|i: int| 0 <= i <= segs.len() implies net_depth(segs.take(i)) >= 0 by {
                assert(segs.take(i) =~= segs);
            }
        }
    } else {
        let pre = segs.drop_last();
        lemma_escape_iff_dips(pre);
        assert(forall|i: int| 0 <= i <= pre.len() ==> segs.take(i) =~= pre.take(i));
        assert(segs.take(segs.len() as int) =~= segs);
        match normalize_segs(pre) {
            None => {
                let i = choose|i: int| 0 <= i <= pre.len() && net_depth(pre.take(i)) < 0;
                assert(net_depth(segs.take(i)) < 0);
            },
            Some(acc) => {
                if normalize_segs(segs) is None {
                    // only a `..` on an empty stack fails, so the walk ends below zero
                    assert(net_depth(segs) == acc.len() as int - 1);
                } else {
                    assert(!dips_above_root(segs)) by {
                        assert forall|i: int| 0 <= i <= segs.len() implies net_depth(
                            segs.take(i),
                        ) >= 0 by {
                            if i <= pre.len() {
                                assert(segs.take(i) =~= pre.take(i));
                            } else {
                                assert(segs.take(i) =~= segs);
                            }
                        }
                    }
                }
            },
        }
    }
}

/// Any raw path whose `..` segments would structurally climb above the root
/// is refused with an escape, never resolved.
pub proof fn lemma_climb_above_root_escapes(s: Seq<char>)
    requires
        dips_above_root(split_path(s)),
    ensures
        resolve_spec(s) is None,
{
    lemma_escape_iff_dips(split_path(s));
}

/// Join segments with `/`, the inverse of splitting for well-formed paths.
pub open spec fn join_segs(segs: Seq<Seq<char>>) -> Seq<char>
    decreases segs.len(),
{
    if segs.len() == 0 {
        Seq::empty()
    } else if segs.len() == 1 {
        segs[0]
    } else {
        join_segs(segs.drop_last()) + seq!['/'] + segs.last()
    }
}

/// Splitting a separator-free string yields that string as its one segment.
proof fn lemma_split_sep_free_string(s: Seq<char>)
    requires
        sep_free(s),
    ensures
        split_path(s) == seq![s],
    decreases s.len(),
{
    if s.len() == 0 {
        assert(split_path(s) =~~= seq![s]);
    } else {
        assert(sep_free(s.drop_last()));
        lemma_split_sep_free_string(s.drop_last());
        assert(split_path(s) =~~= seq![s]) by {
            assert(s.drop_last().push(s.last()) =~= s);
        }
    }
}

/// Appending `/` and a separator-free segment to a string appends one
/// segment to its split.
proof fn lemma_split_append(x: Seq<char>, y: Seq<char>)
    requires
        sep_free(y),
    ensures
        split_path(x + seq!['/'] + y) == split_path(x).push(y),
    decreases y.len(),
{
    if y.len() == 0 {
        let s = x + seq!['/'] + y;
        assert(s.last() == '/');
        assert(s.drop_last() =~= x);
        assert(split_path(s) =~~= split_path(x).push(y));
    } else {
        assert(sep_free(y.drop_last()));
        lemma_split_append(x, y.drop_last());
        let s = x + seq!['/'] + y;
        assert(s.last() == y.last());
        assert(!is_sep(s.last()));
        assert(s.drop_last() =~= x + seq!['/'] + y.drop_last());
        lemma_split_nonempty(s.drop_last());
        assert(split_path(s) =~~= split_path(x).push(y)) by {
            assert(y.drop_last().push(y.last()) =~= y);
        }
    }
}

/// A well-formed segment list normalizes to itself.
proof fn lemma_normalize_wf(segs: Seq<Seq<char>>)
    requires
        path_wf(segs),
    ensures
        normalize_segs(segs) == Some(segs),
    decreases segs.len(),
{
    if segs.len() == 0 {
        assert(normalize_segs(segs) == Some(segs)) by {
            assert(segs =~= Seq::<Seq<char>>::empty());
        }
    } else {
        assert(path_wf(segs.drop_last()));
        lemma_normalize_wf(segs.drop_last());
        assert(segs.drop_last().push(segs.last()) =~= segs);
    }
}

/// Resolution is idempotent: the segments of a successful resolution,
/// re-expressed as a raw path relative to the root, resolve to themselves.
pub proof fn lemma_resolve_round_trip(p: Seq<Seq<char>>)
    requires
        path_wf(p),
    ensures
        resolve_spec(join_segs(p)) == Some(p),
    decreases p.len(),
{
    assert(normalize_segs(Seq::<Seq<char>>::empty()) == Some(Seq::<Seq<char>>::empty()));
    if p.len() == 0 {
        assert(join_segs(p) =~= Seq::<char>::empty());
        let sp = split_path(join_segs(p));
        assert(sp == seq![Seq::<char>::empty()]);
        assert(sp.drop_last() =~= Seq::<Seq<char>>::empty());
        assert(sp.last() == Seq::<char>::empty());
        assert(normalize_segs(sp) == apply_seg(Seq::<Seq<char>>::empty(), sp.last()));
        assert(p =~= Seq::<Seq<char>>::empty());
    } else if p.len() == 1 {
        lemma_split_sep_free_string(p[0]);
        let sp = split_path(join_segs(p));
        assert(sp == seq![p[0]]);
        assert(sp.drop_last() =~= Seq::<Seq<char>>::empty());
        assert(sp.last() == p[0]);
        assert(is_normal_seg(p[0]));
        assert(normalize_segs(sp) == apply_seg(Seq::<Seq<char>>::empty(), p[0]));
        assert(Seq::<Seq<char>>::empty().push(p[0]) =~= p);
    } else {
        lemma_split_append(join_segs(p.drop_last()), p.last());
        assert(path_wf(p.drop_last()));
        lemma_resolve_round_trip(p.drop_last());
        lemma_normalize_wf(p);
        assert(split_path(join_segs(p)) == split_path(join_segs(p.drop_last())).push(p.last()));
        // normalize of split(join(pre)) ++ [last] = apply last to pre = push
        let whole = split_path(join_segs(p));
        assert(whole.drop_last() =~= split_path(join_segs(p.drop_last())));
        assert(whole.last() == p.last());
        assert(is_normal_seg(p.last()));
        assert(p.drop_last().push(p.last()) =~= p);
    }
}

/// The request path, re-expressed relative to the root with `/` separators:
/// `.` for the root itself, else the segments joined by `/` with no leading
/// separator.
pub fn relative_string(p: &ResolvedPath) -> (r: String)
    ensures
        p.spec_is_root() ==> r@ == "."@,
        !p.spec_is_root() ==> r@ == join_segs(p@),
{
    let segs = p.segments();
    if segs.len() == 0 {
        String::from_str(".")
    } else {
        let mut out = String::from_str(segs[0].as_str());
        let mut i: usize = 1;
        while i < segs.len()
            invariant
                1 <= i <= segs.len(),
                segs.deep_view() == p@,
                out@ == join_segs(p@.take(i as int)),
            decreases segs.len() - i,
        {
            out.append("/");
            out.append(segs[i].as_str());
            proof {
                reveal_strlit("/");
                let t = p@.take(i as int + 1);
                assert(t.drop_last() =~= p@.take(i as int));
                assert(t.last() == p@[i as int]);
                assert(out@ =~= join_segs(t));
            }
            i = i + 1;
        }
        proof {
            assert(p@.take(p@.len() as int) =~= p@);
        }
        out
    }
}

/// Whole-segment containment: does the canonical segment list `root` stand
/// as a prefix of the canonical segment list `candidate`?  Matching whole
/// segments means `base` never admits `basement`.
pub fn is_contained_in(root: &Vec<String>, candidate: &Vec<String>) -> (b: bool)
    ensures
        b == root.deep_view().is_prefix_of(candidate.deep_view()),
{
    if root.len() > candidate.len() {
        proof {
            assert(!root.deep_view().is_prefix_of(candidate.deep_view()));
        }
        return false;
    }
    let mut i: usize = 0;
    while i < root.len()
        invariant
            i <= root.len() <= candidate.len(),
            forall|j: int| 0 <= j < i ==> root.deep_view()[j] == candidate.deep_view()[j],
        decreases root.len() - i,
    {
        if !strings_equal(&root[i], &candidate[i]) {
            proof {
                assert(root.deep_view()[i as int] != candidate.deep_view()[i as int]);
                assert(!root.deep_view().is_prefix_of(candidate.deep_view()));
            }
            return false;
        }
        i = i + 1;
    }
    proof {
        assert(root.deep_view() =~= candidate.deep_view().subrange(0, root.len() as int));
    }
    true
}

/// The filesystem-aware containment confirmation: after the candidate path
/// has been canonicalized against the real filesystem (resolving symlinks),
/// its canonical segments must still have the root's canonical segments as
/// a whole-segment prefix; anything else — a symlink pointing outside the
/// root, however the structural path looked — is an escape.
pub fn confirm_containment(root_canon: &Vec<String>, target_canon: &Vec<String>) -> (r: Result<
    (),
    PathError,
>)
    ensures
        match r {
            Ok(()) => root_canon.deep_view().is_prefix_of(target_canon.deep_view()),
            Err(e) => e == PathError::Escape && !root_canon.deep_view().is_prefix_of(
                target_canon.deep_view(),
            ),
        },
{
    if is_contained_in(root_canon, target_canon) {
        Ok(())
    } else {
        Err(PathError::Escape)
    }
}

/// Equality of two strings, by their character sequences.
pub(crate) fn strings_equal(a: &String, b: &String) -> (r: bool)
    ensures
        r == (a@ == b@),
{
    *a == *b
}

} // verus!
