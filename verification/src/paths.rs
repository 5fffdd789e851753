//! Parsing of dotted package identifiers into segment sequences.
use vstd::prelude::*;

verus! {

/// A single path segment is valid when it is non-empty and contains no '.'.
pub open spec fn valid_seg(s: Seq<char>) -> bool {
    s.len() > 0 && forall|i: int| 0 <= i < s.len() ==> s[i] != '.'
}

/// A parsed package path: at least one segment, every segment valid.
pub open spec fn valid_path(segs: Seq<Seq<char>>) -> bool {
    segs.len() > 0 && forall|k: int| 0 <= k < segs.len() ==> valid_seg(#[trigger] segs[k])
}

/// The dotted identifier formed by joining the segments with '.'.
pub open spec fn dotted(segs: Seq<Seq<char>>) -> Seq<char>
    decreases segs.len(),
{
    if segs.len() == 0 {
        Seq::empty()
    } else if segs.len() == 1 {
        segs[0]
    } else {
        segs[0] + seq!['.'] + dotted(segs.skip(1))
    }
}

/// A raw dotted identifier is well formed when it is non-empty, neither
/// begins nor ends with '.', and has no two consecutive '.' characters.
pub open spec fn well_dotted(s: Seq<char>) -> bool {
    &&& s.len() > 0
    &&& s[0] != '.'
    &&& s[s.len() - 1] != '.'
    &&& forall|i: int| 0 < i < s.len() ==> !(s[i - 1] == '.' && #[trigger] s[i] == '.')
}

/// The character sequences of a vector of owned segment strings.
pub open spec fn seg_views(v: Seq<String>) -> Seq<Seq<char>> {
    v.map_values(|s: String| s@)
}

/// Appending one more segment extends the dotted form by '.' and the segment.
pub proof fn lemma_dotted_push(segs: Seq<Seq<char>>, x: Seq<char>)
    ensures
        dotted(segs.push(x)) == if segs.len() == 0 {
            x
        } else {
            dotted(segs) + seq!['.'] + x
        },
    decreases segs.len(),
{
    let p = segs.push(x);
    if segs.len() == 0 {
        assert(p.len() == 1);
        assert(p[0] == x);
    } else if segs.len() == 1 {
        assert(p.len() == 2);
        assert(p.skip(1) =~= seq![x]);
        assert(dotted(p) == p[0] + seq!['.'] + dotted(p.skip(1)));
        assert(dotted(p) == segs[0] + seq!['.'] + x);
        assert(dotted(segs) == segs[0]);
    } else {
        assert(p.skip(1) =~= segs.skip(1).push(x));
        lemma_dotted_push(segs.skip(1), x);
        assert(dotted(p) == p[0] + seq!['.'] + dotted(segs.skip(1).push(x)));
        assert(dotted(p) =~= dotted(segs) + seq!['.'] + x);
    }
}

/// The dotted form of a valid path is a well-formed dotted identifier.
pub proof fn lemma_valid_dotted_well(p: Seq<Seq<char>>)
    requires
        valid_path(p),
    ensures
        well_dotted(dotted(p)),
    decreases p.len(),
{
    let s = dotted(p);
    if p.len() == 1 {
        assert(s == p[0]);
        assert(valid_seg(p[0]));
    } else {
        assert(valid_path(p.skip(1))) by {
            assert(forall|k: int| 0 <= k < p.skip(1).len() ==> p.skip(1)[k] == p[k + 1]);
        }
        lemma_valid_dotted_well(p.skip(1));
        let t = dotted(p.skip(1));
        let l = p[0].len() as int;
        assert(valid_seg(p[0]));
        assert(s == p[0] + seq!['.'] + t);
        assert(s.len() == l + 1 + t.len());
        assert(s[0] == p[0][0]);
        assert(s[s.len() - 1] == t[t.len() - 1]);
        assert forall|i: int| 0 < i < s.len() implies !(s[i - 1] == '.' && #[trigger] s[i]
            == '.') by {
            if i < l {
                assert(s[i] == p[0][i]);
            } else if i == l {
                assert(s[i - 1] == p[0][l - 1]);
            } else if i == l + 1 {
                assert(s[i] == t[0]);
            } else {
                assert(s[i] == t[i - l - 1]);
                assert(s[i - 1] == t[i - l - 2]);
                assert(!(t[(i - l - 1) - 1] == '.' && t[i - l - 1] == '.'));
            }
        }
    }
}

/// Two valid paths with the same dotted form are the same path.
pub proof fn lemma_dotted_injective(p: Seq<Seq<char>>, v: Seq<Seq<char>>)
    requires
        valid_path(p),
        valid_path(v),
        dotted(p) == dotted(v),
    ensures
        p == v,
    decreases p.len(),
{
    let s = dotted(p);
    if p.len() == 1 && v.len() == 1 {
        assert(p =~= v);
    } else if p.len() == 1 {
        assert(s == p[0]);
        assert(valid_seg(p[0]));
        let lv = v[0].len() as int;
        assert(s == v[0] + seq!['.'] + dotted(v.skip(1)));
        assert(s[lv] == '.');
        assert(false);
    } else if v.len() == 1 {
        assert(s == v[0]);
        assert(valid_seg(v[0]));
        let lp = p[0].len() as int;
        assert(s == p[0] + seq!['.'] + dotted(p.skip(1)));
        assert(s[lp] == '.');
        assert(false);
    } else {
        let lp = p[0].len() as int;
        let lv = v[0].len() as int;
        assert(s == p[0] + seq!['.'] + dotted(p.skip(1)));
        assert(dotted(v) == v[0] + seq!['.'] + dotted(v.skip(1)));
        assert(s[lp] == '.');
        assert(s[lv] == '.');
        assert(valid_seg(p[0]) && valid_seg(v[0]));
        if lp < lv {
            assert(s[lp] == v[0][lp]);
            assert(false);
        }
        if lv < lp {
            assert(s[lv] == p[0][lv]);
            assert(false);
        }
        assert forall|i: int| 0 <= i < lp implies p[0][i] == v[0][i] by {
            assert(s[i] == (p[0] + seq!['.'])[i]);
            assert((p[0] + seq!['.'])[i] == p[0][i]);
            assert(dotted(v)[i] == (v[0] + seq!['.'])[i]);
            assert((v[0] + seq!['.'])[i] == v[0][i]);
        }
        assert(p[0] =~= v[0]);
        assert(dotted(p.skip(1)) =~= dotted(v.skip(1))) by {
            assert(forall|i: int|
                0 <= i < dotted(p.skip(1)).len() ==> dotted(p.skip(1))[i] == s[lp + 1 + i]);
            assert(forall|i: int|
                0 <= i < dotted(v.skip(1)).len() ==> dotted(v.skip(1))[i] == s[lv + 1 + i]);
        }
        assert(valid_path(p.skip(1))) by {
            assert(forall|k: int| 0 <= k < p.skip(1).len() ==> p.skip(1)[k] == p[k + 1]);
        }
        assert(valid_path(v.skip(1))) by {
            assert(forall|k: int| 0 <= k < v.skip(1).len() ==> v.skip(1)[k] == v[k + 1]);
        }
        lemma_dotted_injective(p.skip(1), v.skip(1));
        assert(p =~= v) by {
            assert(p.len() == v.len());
            assert(forall|k: int| 1 <= k < p.len() ==> p[k] == p.skip(1)[k - 1]);
            assert(forall|k: int| 1 <= k < v.len() ==> v[k] == v.skip(1)[k - 1]);
        }
    }
}

/// Splits a dotted package identifier into its '.'-separated segments.
///
/// Returns the segments exactly when the identifier is well formed; a raw
/// string that is empty, begins or ends with '.', or has two consecutive
/// '.' characters is rejected.
pub fn parse_path(s: &str) -> (r: Option<Vec<String>>)
    ensures
        (r is Some) <==> well_dotted(s@),
        r matches Some(v) ==> valid_path(seg_views(v@)) && dotted(seg_views(v@)) == s@,
{
    let n = s.unicode_len();
    let mut segs: Vec<String> = Vec::new();
    let mut start: usize = 0;
    let mut i: usize = 0;
    while i < n
        invariant
            n == s@.len(),
            start <= i <= n,
            (start == 0) == (segs@.len() == 0),
            start > 0 ==> s@[start - 1] == '.',
            segs@.len() > 0 ==> start >= 1 && dotted(seg_views(segs@)) == s@.subrange(
                0,
                start - 1,
            ),
            forall|k: int| 0 <= k < segs@.len() ==> valid_seg(#[trigger] seg_views(segs@)[k]),
            forall|k: int| start <= k < i ==> s@[k] != '.',
        decreases n - i,
    {
        if s.get_char(i) == '.' {
            if start == i {
                proof {
                    if i == 0 {
                        assert(s@[0] == '.');
                    } else {
                        assert(s@[i - 1] == '.' && s@[i as int] == '.');
                        assert(!well_dotted(s@));
                    }
                }
                return None;
            }
            let seg = s.substring_char(start, i);
            let owned = seg.to_owned();
            proof {
                let ghost old_views = seg_views(segs@);
                lemma_dotted_push(old_views, owned@);
                assert(seg_views(segs@.push(owned)) =~= old_views.push(owned@));
                assert(owned@ == s@.subrange(start as int, i as int));
                assert(valid_seg(owned@));
                if old_views.len() == 0 {
                    assert(dotted(old_views.push(owned@)) == owned@);
                    assert(owned@ =~= s@.subrange(0, i as int));
                } else {
                    assert(dotted(old_views.push(owned@)) == dotted(old_views) + seq!['.']
                        + owned@);
                    assert(dotted(old_views) == s@.subrange(0, start - 1));
                    assert(s@[start - 1] == '.');
                    assert(dotted(old_views) + seq!['.'] + owned@ =~= s@.subrange(0, i as int));
                }
            }
            segs.push(owned);
            start = i + 1;
        }
        i = i + 1;
    }
    if start == n {
        proof {
            if n == 0 {
                assert(s@.len() == 0);
            } else {
                assert(s@[n - 1] == '.');
            }
        }
        return None;
    }
    let seg = s.substring_char(start, n);
    let owned = seg.to_owned();
    proof {
        let ghost old_views = seg_views(segs@);
        lemma_dotted_push(old_views, owned@);
        assert(seg_views(segs@.push(owned)) =~= old_views.push(owned@));
        assert(owned@ == s@.subrange(start as int, n as int));
        assert(valid_seg(owned@));
        if old_views.len() == 0 {
            assert(dotted(old_views.push(owned@)) == owned@);
            assert(owned@ =~= s@);
        } else {
            assert(dotted(old_views.push(owned@)) == dotted(old_views) + seq!['.'] + owned@);
            assert(dotted(old_views) == s@.subrange(0, start - 1));
            assert(s@[start - 1] == '.');
            assert(dotted(old_views) + seq!['.'] + owned@ =~= s@);
        }
    }
    segs.push(owned);
    proof {
        lemma_valid_dotted_well(seg_views(segs@));
    }
    Some(segs)
}

} // verus!
