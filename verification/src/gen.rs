use vstd::prelude::*;
use crate::error::Error;
use crate::strutil::{all_digits, digits_val, lemma_digits_val_nonneg, parse_u64, split_all,
    split_string};
use crate::track::{Track, track_views};

verus! {

/// How much a generated playlist should hold: a number of tracks, or a
/// total playtime in milliseconds.
#[derive(Debug, PartialEq, Eq)]
pub enum Content {
    Number(usize),
    Duration(u64),
}

/// What a request string denotes: a bare number counts tracks; `M:S` or
/// `H:M:S`, each part in digits, is a playtime.
pub open spec fn spec_content(s: Seq<char>) -> Option<Content> {
    if s.len() > 0 && all_digits(s) && digits_val(s) <= usize::MAX {
        Some(Content::Number(digits_val(s) as usize))
    } else {
        let parts = split_all(s, ':');
        if parts.len() == 2 {
            spec_duration_content(0, parts[0], parts[1])
        } else if parts.len() == 3 {
            if parts[0].len() > 0 && all_digits(parts[0]) {
                spec_duration_content(digits_val(parts[0]), parts[1], parts[2])
            } else {
                None
            }
        } else {
            None
        }
    }
}

/// The playtime denoted by hours and two digit groups, when it fits.
pub open spec fn spec_duration_content(h: int, mp: Seq<char>, sp: Seq<char>) -> Option<Content> {
    if mp.len() > 0 && all_digits(mp) && sp.len() > 0 && all_digits(sp)
        && (h * 3600 + digits_val(mp) * 60 + digits_val(sp)) * 1000 <= u64::MAX {
        Some(Content::Duration((((h * 3600 + digits_val(mp) * 60 + digits_val(sp)) * 1000)) as u64))
    } else {
        None
    }
}

/// Reads a request string: a number of tracks, or a `[H:]M:S` playtime.
pub fn parse_content(content: &String) -> (r: Result<Content, Error>)
    ensures
        match r {
            Ok(c) => spec_content(content@) == Some(c),
            Err(e) => e == Error::BadContent && spec_content(content@) == None::<Content>,
        },
{
    match parse_u64(content.as_str()) {
        Some(v) => {
            if v <= usize::MAX as u64 {
                return Ok(Content::Number(v as usize));
            }
            proof {
                lemma_digits_val_nonneg(content@);
                assert(forall|i: int| 0 <= i < content@.len() ==> content@[i] != ':') by {
                    assert(':' as int == 58);
                }
                crate::strutil::lemma_split_all_no_sep(content@, ':');
            }
            return Err(Error::BadContent);
        },
        None => {},
    }
    let parts = split_string(content.as_str(), ':');
    let (hours, mi, si): (u64, usize, usize) = if parts.len() == 2 {
        (0, 0, 1)
    } else if parts.len() == 3 {
        match parse_u64(parts[0].as_str()) {
            Some(h) => (h, 1, 2),
            None => {
                proof {
                    if all_digits(parts@[0]@) {
                        lemma_digits_val_nonneg(parts@[0]@);
                    }
                    if all_digits(parts@[1]@) {
                        lemma_digits_val_nonneg(parts@[1]@);
                    }
                    if all_digits(parts@[2]@) {
                        lemma_digits_val_nonneg(parts@[2]@);
                    }
                }
                return Err(Error::BadContent);
            },
        }
    } else {
        return Err(Error::BadContent);
    };
    let m = match parse_u64(parts[mi].as_str()) {
        Some(v) => v,
        None => {
            proof {
                if all_digits(parts@[mi as int]@) {
                    lemma_digits_val_nonneg(parts@[mi as int]@);
                }
                if all_digits(parts@[si as int]@) {
                    lemma_digits_val_nonneg(parts@[si as int]@);
                }
            }
            return Err(Error::BadContent);
        },
    };
    let s = match parse_u64(parts[si].as_str()) {
        Some(v) => v,
        None => {
            proof {
                lemma_digits_val_nonneg(parts@[mi as int]@);
                if all_digits(parts@[si as int]@) {
                    lemma_digits_val_nonneg(parts@[si as int]@);
                }
            }
            return Err(Error::BadContent);
        },
    };
    let wide: u128 = (hours as u128 * 3600 + m as u128 * 60 + s as u128) * 1000;
    if wide > u64::MAX as u128 {
        return Err(Error::BadContent);
    }
    Ok(Content::Duration(wide as u64))
}

/// The number of leading candidates needed to reach a playtime of `d`.
pub open spec fn take_until(c: Seq<(Track, u64)>, d: int) -> int
    decreases c.len(),
{
    if d <= 0 || c.len() == 0 {
        0
    } else {
        1 + take_until(c.drop_first(), d - c[0].1)
    }
}

/// The count never exceeds what is available.
pub proof fn lemma_take_until_bound(c: Seq<(Track, u64)>, d: int)
    ensures
        0 <= take_until(c, d) <= c.len(),
    decreases c.len(),
{
    if !(d <= 0 || c.len() == 0) {
        lemma_take_until_bound(c.drop_first(), d - c[0].1);
    }
}

/// The summed playtime of a candidate list.
pub open spec fn total_playtime(c: Seq<(Track, u64)>) -> int
    decreases c.len(),
{
    if c.len() == 0 {
        0
    } else {
        total_playtime(c.drop_last()) + c.last().1
    }
}

/// The candidates in the order the generation walks them.
pub open spec fn gen_order(c: Seq<(Track, u64)>, reverse: bool) -> Seq<(Track, u64)> {
    if reverse {
        c.reverse()
    } else {
        c
    }
}

/// The tracks of the first `k` candidates.
pub open spec fn taken_tracks(c: Seq<(Track, u64)>, k: int) -> Seq<Seq<char>> {
    c.take(k).map_values(|p: (Track, u64)| p.0@)
}

/// Appending the `k`-th candidate's track extends the taken prefix by one.
proof fn lemma_taken_tracks_push(c: Seq<(Track, u64)>, k: int, out: Seq<Track>, t: Track)
    requires
        0 <= k < c.len(),
        out.len() == k,
        track_views(out) == taken_tracks(c, k),
        t == c[k].0,
    ensures
        track_views(out.push(t)) == taken_tracks(c, k + 1),
{
    assert forall|j: int| 0 <= j < k + 1
        implies track_views(out.push(t))[j] == taken_tracks(c, k + 1)[j] by {
        if j < k {
            assert(track_views(out)[j] == taken_tracks(c, k)[j]);
            assert(out.push(t)[j] == out[j]);
            assert(c.take(k + 1)[j] == c.take(k)[j]);
        } else {
            assert(out.push(t)[j] == t);
            assert(c.take(k + 1)[j] == c[k]);
        }
    }
    assert(track_views(out.push(t)) =~= taken_tracks(c, k + 1));
}

/// Picks tracks for a generated playlist: the candidates come ranked by the
/// caller (least listened first) and are taken in order — reversed when
/// `reverse` is set — until the requested count, or the requested playtime,
/// is reached. When the candidates cannot satisfy the request, a strict
/// call fails and a lax one returns everything available.
pub fn generate(content: &String, reverse: bool, strict: bool, candidates: &Vec<(Track, u64)>)
    -> (r: Result<Vec<Track>, Error>)
    ensures
        match r {
            Ok(tracks) => {
                &&& spec_content(content@) is Some
                &&& match spec_content(content@).unwrap() {
                    Content::Number(n) => {
                        &&& (strict ==> n <= candidates@.len())
                        &&& track_views(tracks@) == taken_tracks(
                            gen_order(candidates@, reverse),
                            if n <= candidates@.len() { n as int } else { candidates@.len() as int },
                        )
                    },
                    Content::Duration(d) => {
                        &&& (strict ==> total_playtime(candidates@) >= d)
                        &&& track_views(tracks@) == taken_tracks(
                            gen_order(candidates@, reverse),
                            take_until(gen_order(candidates@, reverse), d as int),
                        )
                    },
                }
            },
            Err(e) => {
                ||| (e == Error::BadContent && spec_content(content@) == None::<Content>)
                ||| (e == Error::NotEnoughTracks && strict && spec_content(content@) is Some)
            },
        },
{
    let want = match parse_content(content) {
        Ok(c) => c,
        Err(e) => {
            return Err(e);
        },
    };
    let order = order_candidates(candidates, reverse);
    let ghost ord = gen_order(candidates@, reverse);
    proof {
        assert(order@ == ord);
    }
    match want {
        Content::Number(n) => {
            if strict && candidates.len() < n {
                return Err(Error::NotEnoughTracks);
            }
            let k = if n <= order.len() {
                n
            } else {
                order.len()
            };
            let mut out: Vec<Track> = Vec::new();
            let mut i: usize = 0;
            proof {
                assert(track_views(out@) =~= taken_tracks(ord, 0));
            }
            while i < k
                invariant
                    0 <= i <= k,
                    k <= order@.len(),
                    ord == order@,
                    out@.len() == i,
                    track_views(out@) == taken_tracks(ord, i as int),
                decreases k - i,
            {
                let ghost pre_out = out@;
                out.push(order[i].0.clone());
                proof {
                    lemma_taken_tracks_push(ord, i as int, pre_out, out@[i as int]);
                    assert(out@ =~= pre_out.push(out@[i as int]));
                }
                i = i + 1;
            }
            Ok(out)
        },
        Content::Duration(d) => {
            if strict {
                let total = sum_playtimes(&order);
                proof {
                    lemma_playtime_reverse(candidates@, reverse);
                }
                if total < d as u128 {
                    return Err(Error::NotEnoughTracks);
                }
            }
            let n = order.len();
            let mut out: Vec<Track> = Vec::new();
            let mut cum: u128 = 0;
            let mut i: usize = 0;
            proof {
                assert(track_views(out@) =~= taken_tracks(ord, 0));
                assert(ord.skip(0) =~= ord);
            }
            while i < n && cum < d as u128
                invariant
                    0 <= i <= n,
                    n == ord.len(),
                    ord == order@,
                    out@.len() == i,
                    track_views(out@) == taken_tracks(ord, i as int),
                    cum <= u64::MAX as u128 + u64::MAX as u128,
                    take_until(ord, d as int)
                        == i + take_until(ord.skip(i as int), d - cum as int),
                decreases n - i,
            {
                proof {
                    assert(ord.skip(i as int).drop_first() =~= ord.skip(i as int + 1));
                    assert(ord.skip(i as int)[0] == ord[i as int]);
                }
                let ghost pre_out = out@;
                out.push(order[i].0.clone());
                proof {
                    lemma_taken_tracks_push(ord, i as int, pre_out, out@[i as int]);
                    assert(out@ =~= pre_out.push(out@[i as int]));
                }
                cum = cum + order[i].1 as u128;
                i = i + 1;
            }
            proof {
                if cum >= d as u128 {
                } else {
                    assert(i == n);
                    assert(ord.skip(n as int) =~= Seq::<(Track, u64)>::empty());
                }
                lemma_take_until_bound(ord.skip(i as int), d - cum as int);
                assert(take_until(ord, d as int) == i as int);
            }
            Ok(out)
        },
    }
}

/// The candidates in walking order.
fn order_candidates(candidates: &Vec<(Track, u64)>, reverse: bool) -> (r: Vec<(Track, u64)>)
    ensures
        r@ == gen_order(candidates@, reverse),
{
    let n = candidates.len();
    let mut r: Vec<(Track, u64)> = Vec::new();
    if reverse {
        let mut i: usize = n;
        while i > 0
            invariant
                0 <= i <= n,
                n == candidates@.len(),
                r@.len() == n - i,
                forall|j: int| 0 <= j < r@.len() ==> #[trigger] r@[j] == candidates@[n - 1 - j],
            decreases i,
        {
            i = i - 1;
            r.push((candidates[i].0.clone(), candidates[i].1));
        }
        proof {
            assert(r@ =~= candidates@.reverse());
        }
    } else {
        let mut i: usize = 0;
        while i < n
            invariant
                0 <= i <= n,
                n == candidates@.len(),
                r@ == candidates@.take(i as int),
            decreases n - i,
        {
            r.push((candidates[i].0.clone(), candidates[i].1));
            proof {
                assert(r@ =~= candidates@.take(i as int + 1));
            }
            i = i + 1;
        }
        proof {
            assert(candidates@.take(n as int) =~= candidates@);
        }
    }
    r
}

/// The summed playtime, wide enough never to overflow.
fn sum_playtimes(c: &Vec<(Track, u64)>) -> (r: u128)
    ensures
        r as int == total_playtime(c@),
        r <= u64::MAX as u128 * c@.len(),
    {
    let n = c.len();
    let mut r: u128 = 0;
    let mut i: usize = 0;
    while i < n
        invariant
            0 <= i <= n,
            n == c@.len(),
            r as int == total_playtime(c@.take(i as int)),
            r <= u64::MAX as u128 * i,
        decreases n - i,
    {
        proof {
            assert(c@.take(i as int + 1).drop_last() =~= c@.take(i as int));
            assert(c@.take(i as int + 1).last() == c@[i as int]);
            assert(u64::MAX as u128 * (i + 1) == u64::MAX as u128 * i + u64::MAX as u128)
                by (nonlinear_arith);
            assert(u64::MAX as u128 * i <= u64::MAX as u128 * n) by (nonlinear_arith)
                requires 0 <= i <= n;
        }
        r = r + c[i].1 as u128;
        i = i + 1;
    }
    proof {
        assert(c@.take(n as int) =~= c@);
        assert(u64::MAX as u128 * i <= u64::MAX as u128 * n) by (nonlinear_arith)
            requires 0 <= i <= n;
    }
    r
}

/// Reversal keeps the total playtime.
proof fn lemma_playtime_reverse(c: Seq<(Track, u64)>, reverse: bool)
    ensures
        total_playtime(gen_order(c, reverse)) == total_playtime(c),
    decreases c.len(),
{
    if reverse && c.len() > 0 {
        lemma_playtime_reverse(c.drop_first(), reverse);
        assert(c.reverse().drop_last() =~= c.drop_first().reverse());
        assert(c.reverse().last() == c[0]);
        lemma_playtime_first(c);
    }
}

/// The total is the first record plus the rest.
proof fn lemma_playtime_first(c: Seq<(Track, u64)>)
    requires
        c.len() > 0,
    ensures
        total_playtime(c) == c[0].1 + total_playtime(c.drop_first()),
    decreases c.len(),
{
    if c.len() == 1 {
        assert(c.drop_last() =~= Seq::<(Track, u64)>::empty());
        assert(c.drop_first() =~= Seq::<(Track, u64)>::empty());
    } else {
        lemma_playtime_first(c.drop_last());
        assert(c.drop_last().drop_first() =~= c.drop_first().drop_last());
        assert(c.drop_last()[0] == c[0]);
        assert(c.drop_first().last() == c.last());
    }
}

} // verus!
