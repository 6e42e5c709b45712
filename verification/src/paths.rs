//! Import paths: a path written in an import is read relative to the main
//! file's directory and normalized lexically, so that two spellings of one
//! file (`./sub/../module.etch` and `module.etch`) name it once.
use vstd::prelude::*;
use crate::text::{chars_eq, chars_of, push_all, string_of};

verus! {

/// The segments of `s[..n]` split at `/`: those closed by a `/`, and the
/// one still open.
pub open spec fn split_state(s: Seq<char>, n: int) -> (Seq<Seq<char>>, Seq<char>)
    decreases n,
{
    if n <= 0 {
        (Seq::empty(), Seq::empty())
    } else {
        let (done, open) = split_state(s, n - 1);
        if s[n - 1] == '/' {
            (done.push(open), Seq::empty())
        } else {
            (done, open.push(s[n - 1]))
        }
    }
}

/// The segments of a path between its `/` separators, empty ones included.
pub open spec fn segments(s: Seq<char>) -> Seq<Seq<char>> {
    let (done, open) = split_state(s, s.len() as int);
    done.push(open)
}

/// The segment that names the parent directory.
pub open spec fn parent_segment() -> Seq<char> {
    seq!['.', '.']
}

/// The kept segments after one more: an empty segment and `.` are dropped,
/// `..` takes back the last kept segment unless there is none or it is a
/// `..` itself, in which case it is kept; any other segment is kept.
pub open spec fn clean_step(kept: Seq<Seq<char>>, seg: Seq<char>) -> Seq<Seq<char>> {
    if seg.len() == 0 || seg == seq!['.'] {
        kept
    } else if seg == parent_segment() {
        if kept.len() > 0 && kept.last() != parent_segment() {
            kept.drop_last()
        } else {
            kept.push(seg)
        }
    } else {
        kept.push(seg)
    }
}

/// The segments kept after all of `segs`, taken in order.
pub open spec fn cleaned(segs: Seq<Seq<char>>) -> Seq<Seq<char>>
    decreases segs.len(),
{
    if segs.len() == 0 {
        Seq::empty()
    } else {
        clean_step(cleaned(segs.drop_last()), segs.last())
    }
}

/// Segments joined with `/`.
pub open spec fn joined(segs: Seq<Seq<char>>) -> Seq<char>
    decreases segs.len(),
{
    if segs.len() == 0 {
        Seq::empty()
    } else if segs.len() == 1 {
        segs[0]
    } else {
        joined(segs.drop_last()) + seq!['/'] + segs.last()
    }
}

/// The normal form of a relative path: its kept segments joined with `/`,
/// or `.` when none is kept.
pub open spec fn normalized(s: Seq<char>) -> Seq<char> {
    let kept = cleaned(segments(s));
    if kept.len() == 0 {
        seq!['.']
    } else {
        joined(kept)
    }
}

/// Whether a text holds no `/`.
pub open spec fn slash_free(t: Seq<char>) -> bool {
    forall|i: int| 0 <= i < t.len() ==> t[i] != '/'
}

/// The shape of kept segments: none empty, none `.`, none holding a `/`,
/// and every `..` preceded by `..` segments only.
pub open spec fn clean_form(k: Seq<Seq<char>>) -> bool {
    forall|i: int|
        0 <= i < k.len() ==> {
            &&& (#[trigger] k[i]).len() > 0
            &&& k[i] != seq!['.']
            &&& slash_free(k[i])
            &&& (k[i] == parent_segment() ==> forall|j: int| 0 <= j < i ==> k[j] == parent_segment())
        }
}

proof fn lemma_split_prefix(s: Seq<char>, t: Seq<char>, n: int)
    requires
        0 <= n <= s.len(),
        n <= t.len(),
        s.take(n) == t.take(n),
    ensures
        split_state(s, n) == split_state(t, n),
    decreases n,
{
    if n > 0 {
        assert(s.take(n - 1) =~= s.take(n).take(n - 1));
        assert(t.take(n - 1) =~= t.take(n).take(n - 1));
        assert(s[n - 1] == s.take(n)[n - 1]);
        assert(t[n - 1] == t.take(n)[n - 1]);
        lemma_split_prefix(s, t, n - 1);
    }
}

proof fn lemma_split_run(s: Seq<char>, start: int, j: int)
    requires
        0 <= start,
        0 <= j,
        start + j <= s.len(),
        slash_free(s.subrange(start, start + j)),
    ensures
        split_state(s, start + j) == (split_state(s, start).0, split_state(s, start).1
            + s.subrange(start, start + j)),
    decreases j,
{
    if j > 0 {
        assert(slash_free(s.subrange(start, start + j - 1))) by {
            assert forall|i: int| 0 <= i < j - 1 implies #[trigger] s.subrange(
                start,
                start + j - 1,
            )[i] != '/' by {
                assert(s.subrange(start, start + j - 1)[i] == s.subrange(start, start + j)[i]);
            }
        }
        lemma_split_run(s, start, j - 1);
        assert(s[start + j - 1] == s.subrange(start, start + j)[j - 1]);
        assert(s.subrange(start, start + j) =~= s.subrange(start, start + j - 1).push(
            s[start + j - 1],
        ));
    } else {
        assert(s.subrange(start, start) =~= Seq::<char>::empty());
    }
}

proof fn lemma_segments_slash_free(s: Seq<char>, n: int)
    requires
        0 <= n <= s.len(),
    ensures
        slash_free(split_state(s, n).1),
        forall|i: int|
            0 <= i < split_state(s, n).0.len() ==> slash_free(#[trigger] split_state(s, n).0[i]),
    decreases n,
{
    if n > 0 {
        lemma_segments_slash_free(s, n - 1);
    }
}

proof fn lemma_clean_step_form(kept: Seq<Seq<char>>, seg: Seq<char>)
    requires
        clean_form(kept),
        slash_free(seg),
    ensures
        clean_form(clean_step(kept, seg)),
{
    let r = clean_step(kept, seg);
    assert forall|i: int| 0 <= i < r.len() implies {
        &&& (#[trigger] r[i]).len() > 0
        &&& r[i] != seq!['.']
        &&& slash_free(r[i])
        &&& (r[i] == parent_segment() ==> forall|j: int| 0 <= j < i ==> r[j] == parent_segment())
    } by {
        if i < kept.len() && r[i] == kept[i] {
            if r[i] == parent_segment() {
                assert forall|j: int| 0 <= j < i implies r[j] == parent_segment() by {
                    assert(r[j] == kept[j]);
                }
            }
        } else {
            assert(r == kept.push(seg) && i == kept.len());
            if seg == parent_segment() {
                assert forall|j: int| 0 <= j < i implies r[j] == parent_segment() by {
                    assert(r[j] == kept[j]);
                    assert(kept.last() == parent_segment());
                }
            }
        }
    }
}

proof fn lemma_cleaned_form(segs: Seq<Seq<char>>)
    requires
        forall|i: int| 0 <= i < segs.len() ==> slash_free(#[trigger] segs[i]),
    ensures
        clean_form(cleaned(segs)),
    decreases segs.len(),
{
    if segs.len() > 0 {
        lemma_cleaned_form(segs.drop_last());
        lemma_clean_step_form(cleaned(segs.drop_last()), segs.last());
    }
}

proof fn lemma_cleaned_clean(k: Seq<Seq<char>>)
    requires
        clean_form(k),
    ensures
        cleaned(k) == k,
    decreases k.len(),
{
    if k.len() > 0 {
        let p = k.drop_last();
        assert(clean_form(p)) by {
            assert forall|i: int| 0 <= i < p.len() implies {
                &&& (#[trigger] p[i]).len() > 0
                &&& p[i] != seq!['.']
                &&& slash_free(p[i])
                &&& (p[i] == parent_segment() ==> forall|j: int| 0 <= j < i ==> p[j]
                    == parent_segment())
            } by {
                assert(p[i] == k[i]);
                if p[i] == parent_segment() {
                    assert forall|j: int| 0 <= j < i implies p[j] == parent_segment() by {
                        assert(p[j] == k[j]);
                    }
                }
            }
        }
        lemma_cleaned_clean(p);
        let last = k[k.len() - 1];
        assert(last.len() > 0 && last != seq!['.']);
        if last == parent_segment() && p.len() > 0 {
            assert(p.last() == k[p.len() - 1]);
        }
        assert(p.push(last) =~= k);
    }
}

proof fn lemma_segments_joined(k: Seq<Seq<char>>)
    requires
        k.len() > 0,
        forall|i: int| 0 <= i < k.len() ==> slash_free(#[trigger] k[i]),
    ensures
        segments(joined(k)) == k,
    decreases k.len(),
{
    let s = joined(k);
    let last = k.last();
    if k.len() == 1 {
        assert(s == k[0]);
        assert(s.subrange(0, s.len() as int) =~= s);
        lemma_split_run(s, 0, s.len() as int);
        assert(Seq::<char>::empty() + s =~= s);
        assert(seq![k[0]] =~= k);
    } else {
        let p = k.drop_last();
        assert forall|i: int| 0 <= i < p.len() implies slash_free(#[trigger] p[i]) by {
            assert(p[i] == k[i]);
        }
        lemma_segments_joined(p);
        let a = joined(p);
        assert(s == a + seq!['/'] + last);
        let n = a.len() as int;
        assert(s.take(n) =~= a.take(n));
        assert(a.take(n) =~= a);
        lemma_split_prefix(s, a, n);
        assert(s[n] == '/');
        assert(split_state(s, n + 1) == (p, Seq::<char>::empty()));
        assert(s.subrange(n + 1, n + 1 + last.len()) =~= last);
        lemma_split_run(s, n + 1, last.len() as int);
        assert(Seq::<char>::empty() + last =~= last);
        assert(p.push(last) =~= k);
    }
}

/// Normalizing twice gives what normalizing once gives: the normal form of
/// a path is its own normal form.
pub proof fn lemma_normalized_idempotent(s: Seq<char>)
    ensures
        normalized(normalized(s)) == normalized(s),
{
    let segs = segments(s);
    lemma_segments_slash_free(s, s.len() as int);
    assert forall|i: int| 0 <= i < segs.len() implies slash_free(#[trigger] segs[i]) by {
        let (done, open) = split_state(s, s.len() as int);
        if i < done.len() {
            assert(segs[i] == done[i]);
        } else {
            assert(segs[i] == open);
        }
    }
    lemma_cleaned_form(segs);
    let kept = cleaned(segs);
    if kept.len() == 0 {
        let dot = seq!['.'];
        assert(split_state(dot, 0) == (Seq::<Seq<char>>::empty(), Seq::<char>::empty()));
        assert(split_state(dot, 1) == (Seq::<Seq<char>>::empty(), dot));
        assert(segments(dot) == seq![dot]);
        assert(seq![dot].drop_last() =~= Seq::<Seq<char>>::empty());
        assert(seq![dot].last() == dot);
        assert(cleaned(Seq::<Seq<char>>::empty()) == Seq::<Seq<char>>::empty());
        assert(cleaned(seq![dot]) == clean_step(Seq::<Seq<char>>::empty(), dot));
        assert(cleaned(segments(dot)).len() == 0);
    } else {
        assert forall|i: int| 0 <= i < kept.len() implies slash_free(#[trigger] kept[i]) by {}
        lemma_segments_joined(kept);
        lemma_cleaned_clean(kept);
    }
}

/// The texts of a sequence of character vectors.
pub open spec fn segs_view(v: Seq<Vec<char>>) -> Seq<Seq<char>> {
    Seq::new(v.len(), |i: int| v[i]@)
}

/// Applies one segment to the kept segments.
fn apply_segment(kept: &mut Vec<Vec<char>>, seg: Vec<char>)
    ensures
        segs_view(final(kept)@) == clean_step(segs_view(old(kept)@), seg@),
{
    let ghost before = segs_view(kept@);
    let dot = ['.'];
    let dots = ['.', '.'];
    assert(dot@ =~= seq!['.']);
    assert(dots@ =~= parent_segment());
    if seg.len() == 0 || chars_eq(seg.as_slice(), &dot) {
        return;
    }
    if chars_eq(seg.as_slice(), &dots) {
        let n = kept.len();
        if n > 0 && !chars_eq(kept[n - 1].as_slice(), &dots) {
            kept.pop();
            assert(segs_view(kept@) =~= before.drop_last());
            return;
        }
    }
    kept.push(seg);
    assert(segs_view(kept@) =~= before.push(seg@));
}

/// Normalizes an import path: empty segments (from a leading, trailing or
/// doubled `/`) and `.` segments are dropped, and each `..` takes back the
/// segment before it; a `..` with nothing before it to take back is kept.
/// A path that keeps nothing normalizes to `.`.
pub fn normalize_import_path(path: &str) -> (r: String)
    ensures
        r@ == normalized(path@),
{
    let s = chars_of(path);
    let mut kept: Vec<Vec<char>> = Vec::new();
    let mut open: Vec<char> = Vec::new();
    let mut i: usize = 0;
    proof {
        assert(segs_view(kept@) =~= cleaned(Seq::<Seq<char>>::empty()));
    }
    while i < s.len()
        invariant
            s@ == path@,
            i <= s@.len(),
            ({
                let (done, o) = split_state(s@, i as int);
                segs_view(kept@) == cleaned(done) && open@ == o
            }),
        decreases s@.len() - i,
    {
        let ghost done = split_state(s@, i as int).0;
        if s[i] == '/' {
            let seg = open;
            open = Vec::new();
            apply_segment(&mut kept, seg);
            proof {
                assert(done.push(seg@).drop_last() =~= done);
            }
        } else {
            open.push(s[i]);
        }
        i = i + 1;
    }
    proof {
        let done = split_state(s@, s@.len() as int).0;
        assert(done.push(open@).drop_last() =~= done);
    }
    let ghost done = split_state(s@, s@.len() as int).0;
    apply_segment(&mut kept, open);
    assert(segs_view(kept@) == cleaned(segments(path@)));
    if kept.len() == 0 {
        let d = ['.'];
        assert(d@ =~= seq!['.']);
        return string_of(&d);
    }
    let mut out: Vec<char> = Vec::new();
    push_all(&mut out, kept[0].as_slice());
    let mut k: usize = 1;
    proof {
        assert(segs_view(kept@).take(1) =~= seq![kept@[0]@]);
    }
    while k < kept.len()
        invariant
            1 <= k <= kept@.len(),
            out@ == joined(segs_view(kept@).take(k as int)),
        decreases kept@.len() - k,
    {
        let ghost v = segs_view(kept@);
        out.push('/');
        push_all(&mut out, kept[k].as_slice());
        proof {
            assert(v.take(k + 1).drop_last() =~= v.take(k as int));
            assert(v.take(k + 1).last() == kept@[k as int]@);
            assert(out@ =~= joined(v.take(k as int)) + seq!['/'] + kept@[k as int]@);
        }
        k = k + 1;
    }
    proof {
        assert(segs_view(kept@).take(kept@.len() as int) =~= segs_view(kept@));
    }
    string_of(out.as_slice())
}

} // verus!
