use vstd::prelude::*;
use crate::error::Error;
use crate::strutil::{dec_digits, digit_char, format_u64};

verus! {

/// Relies on dirs::home_dir: the user's home directory, as the platform
/// reports it, converted to a string; nothing is promised of the outcome,
/// which depends on the environment.
#[verifier::external_body]
fn home_dir_string() -> (r: Option<String>)
{
    match dirs::home_dir() {
        Some(p) => match p.to_str() {
            Some(s) => Some(s.to_string()),
            None => None,
        },
        None => None,
    }
}

/// Relies on chrono::Local::now and chrono::Datelike: the current local
/// year and month; the month is always between one and twelve, as the
/// `Datelike::month` documentation states, and nothing is promised of the
/// year, which depends on the clock.
#[verifier::external_body]
fn now_year_month() -> (r: (i32, u32))
    ensures
        1 <= r.1 <= 12,
{
    let now = chrono::Local::now();
    (chrono::Datelike::year(&now), chrono::Datelike::month(&now))
}

/// A base directory joined with a relative path: a separator stands between
/// them unless the base already ends with one.
pub open spec fn spec_join(base: Seq<char>, rel: Seq<char>) -> Seq<char> {
    if base.len() > 0 && base.last() == '/' {
        base + rel
    } else {
        base + seq!['/'] + rel
    }
}

/// Constructs a path by concatenating an absolute base directory and a
/// relative path. An absolute `rel_path` or a relative `base_dir` is
/// rejected.
pub fn path_from(base_dir: &str, rel_path: &str) -> (r: Result<String, Error>)
    ensures
        match r {
            Ok(p) => {
                &&& base_dir@.len() > 0 && base_dir@.first() == '/'
                &&& !(rel_path@.len() > 0 && rel_path@.first() == '/')
                &&& p@ == spec_join(base_dir@, rel_path@)
            },
            Err(e) => {
                &&& (e == Error::NotAbsolute || e == Error::NotRelative)
                &&& (e == Error::NotAbsolute
                    <==> !(base_dir@.len() > 0 && base_dir@.first() == '/'))
                &&& (e == Error::NotRelative ==> rel_path@.len() > 0 && rel_path@.first() == '/')
            },
        },
{
    let blen = base_dir.unicode_len();
    if blen == 0 || base_dir.get_char(0) != '/' {
        return Err(Error::NotAbsolute);
    }
    if rel_path.unicode_len() > 0 && rel_path.get_char(0) == '/' {
        return Err(Error::NotRelative);
    }
    let mut out = base_dir.to_owned();
    if base_dir.get_char(blen - 1) != '/' {
        out.append("/");
    }
    out.append(rel_path);
    proof {
        reveal_strlit("/");
        assert("/"@ =~= seq!['/']);
        assert(out@ =~= spec_join(base_dir@, rel_path@));
    }
    Ok(out)
}

/// The music directory: `Music` under the home directory. Fails when no
/// home directory can be found or it is not an absolute path.
pub fn music_dir() -> (r: Result<String, Error>)
    ensures
        match r {
            Ok(p) => p@.len() > 0 && p@.first() == '/'
                && "/Music"@.is_suffix_of(p@),
            Err(e) => e == Error::NoHomeDir || e == Error::NotAbsolute,
        },
{
    let home = match home_dir_string() {
        Some(h) => h,
        None => {
            return Err(Error::NoHomeDir);
        },
    };
    match path_from(home.as_str(), "Music") {
        Ok(p) => {
            proof {
                reveal_strlit("Music");
                reveal_strlit("/Music");
                assert("/Music"@ =~= seq!['/'] + "Music"@);
                assert(p@ == spec_join(home@, "Music"@));
                assert(p@.len() > 0 && p@.first() == '/') by {
                    if home@.len() > 0 && home@.last() == '/' {
                        assert(p@[0] == home@[0]);
                    } else {
                        assert(p@[0] == (home@ + seq!['/'])[0]);
                    }
                }
                assert("/Music"@.is_suffix_of(p@)) by {
                    if home@.len() > 0 && home@.last() == '/' {
                        assert(p@.len() == home@.len() + 5);
                        assert("/Music"@ =~= p@.subrange(p@.len() - 6, p@.len() as int));
                    } else {
                        assert(p@.len() == home@.len() + 6);
                        assert("/Music"@ =~= p@.subrange(p@.len() - 6, p@.len() as int));
                    }
                }
            }
            Ok(p)
        },
        Err(e) => {
            proof {
                reveal_strlit("Music");
                assert("Music"@.first() != '/');
            }
            Err(e)
        },
    }
}

/// The directory that holds the playlists.
pub fn playlist_dir(music_dir: &str) -> (r: String)
    ensures
        r@ == music_dir@ + "/Playlists"@,
{
    let mut out = music_dir.to_owned();
    out.append("/Playlists");
    out
}

/// The directory that holds the playcounts.
pub fn playcount_dir(music_dir: &str) -> (r: String)
    ensures
        r@ == music_dir@ + "/.playcount"@,
{
    let mut out = music_dir.to_owned();
    out.append("/.playcount");
    out
}

/// The ignore meta-playlist: invalid paths listed there are kept out of the
/// history and playcount cleanups, for historical reasons.
pub fn ignore_file(music_dir: &str) -> (r: String)
    ensures
        r@ == music_dir@ + "/.ignore.m3u"@,
{
    let mut out = music_dir.to_owned();
    out.append("/.ignore.m3u");
    out
}

/// A year written with at least four digits.
pub open spec fn year_digits(y: int) -> Seq<char> {
    if y < 10 {
        seq![digit_char(0), digit_char(0), digit_char(0)] + dec_digits(y)
    } else if y < 100 {
        seq![digit_char(0), digit_char(0)] + dec_digits(y)
    } else if y < 1000 {
        seq![digit_char(0)] + dec_digits(y)
    } else {
        dec_digits(y)
    }
}

/// A month written with two digits.
pub open spec fn month_digits(m: int) -> Seq<char> {
    if m < 10 {
        seq![digit_char(0)] + dec_digits(m)
    } else {
        dec_digits(m)
    }
}

/// The name of the playcount file for one month: year, month and the `tsv`
/// extension.
pub open spec fn spec_playcount_filename(y: int, m: int) -> Seq<char> {
    year_digits(y) + seq!['-'] + month_digits(m) + ".tsv"@
}

/// Writes the name of the playcount file for the given month.
pub fn playcount_filename(year: u32, month: u32) -> (r: String)
    requires
        1 <= month <= 12,
    ensures
        r@ == spec_playcount_filename(year as int, month as int),
{
    let mut out = String::new();
    if year < 10 {
        out.append("000");
    } else if year < 100 {
        out.append("00");
    } else if year < 1000 {
        out.append("0");
    }
    let ystr = format_u64(year as u64);
    out.append(ystr.as_str());
    out.append("-");
    if month < 10 {
        out.append("0");
    }
    let mstr = format_u64(month as u64);
    out.append(mstr.as_str());
    out.append(".tsv");
    proof {
        reveal_strlit("000");
        reveal_strlit("00");
        reveal_strlit("0");
        reveal_strlit("-");
        assert("-"@ =~= seq!['-']);
        assert("000"@ =~= seq![digit_char(0), digit_char(0), digit_char(0)]);
        assert("00"@ =~= seq![digit_char(0), digit_char(0)]);
        assert("0"@ =~= seq![digit_char(0)]);
        assert(out@ =~= spec_playcount_filename(year as int, month as int));
    }
    out
}

/// The path where the current month's playcount file belongs: one file per
/// month, named after the local year and month, under the playcount
/// directory. The exact name depends on the clock, but it is always that of
/// some month, under the given directory.
pub fn current_playcount_path(playcount_dir: &str) -> (r: Result<String, Error>)
    ensures
        match r {
            Ok(p) => exists|y: int, m: int| 0 <= y && 1 <= m <= 12
                && p@ == spec_join(playcount_dir@, #[trigger] spec_playcount_filename(y, m)),
            Err(e) => e == Error::NotAbsolute || e == Error::NotRelative,
        },
{
    let (y, m) = now_year_month();
    let yy: u32 = if y < 0 {
        0
    } else {
        y as u32
    };
    let name = playcount_filename(yy, m);
    match path_from(playcount_dir, name.as_str()) {
        Ok(p) => {
            proof {
                assert(p@ == spec_join(playcount_dir@, spec_playcount_filename(
                    yy as int,
                    m as int,
                )));
            }
            Ok(p)
        },
        Err(e) => {
            proof {
                assert(e == Error::NotAbsolute || e == Error::NotRelative);
            }
            Err(e)
        },
    }
}

} // verus!
