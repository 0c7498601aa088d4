//! Tile URL templating: substituting `{z}`, `{x}`, `{y}` and `{s}`
//! placeholders in a URL template.

use vstd::prelude::*;
use vstd::string::*;

use crate::tiling::TileId;

verus! {

/// The character for a single decimal digit.
pub open spec fn digit_char(d: nat) -> char {
    if d == 0 {
        '0'
    } else if d == 1 {
        '1'
    } else if d == 2 {
        '2'
    } else if d == 3 {
        '3'
    } else if d == 4 {
        '4'
    } else if d == 5 {
        '5'
    } else if d == 6 {
        '6'
    } else if d == 7 {
        '7'
    } else if d == 8 {
        '8'
    } else {
        '9'
    }
}

/// The decimal digits of a non-negative number, most significant first.
pub open spec fn dec_digits(n: nat) -> Seq<char>
    decreases n,
{
    if n < 10 {
        seq![digit_char(n)]
    } else {
        dec_digits(n / 10) + seq![digit_char(n % 10)]
    }
}

/// The decimal form of a signed number: a minus sign before the digits of
/// its magnitude.
pub open spec fn int_digits(v: int) -> Seq<char> {
    if v < 0 {
        seq!['-'] + dec_digits((-v) as nat)
    } else {
        dec_digits(v as nat)
    }
}

/// `s` with every non-overlapping occurrence of `pat` replaced by `rep`,
/// scanning left to right; `s` itself when `pat` is empty.
pub open spec fn spec_replace(s: Seq<char>, pat: Seq<char>, rep: Seq<char>) -> Seq<char>
    decreases s.len(),
{
    if pat.len() == 0 || s.len() < pat.len() {
        s
    } else if s.subrange(0, pat.len() as int) == pat {
        rep + spec_replace(s.subrange(pat.len() as int, s.len() as int), pat, rep)
    } else {
        seq![s[0]] + spec_replace(s.subrange(1, s.len() as int), pat, rep)
    }
}

/// A tile URL from a template: `{z}`, `{x}` and `{y}` replaced by the tile
/// address, and, when a non-empty subdomain list is given, `{s}` replaced by
/// the entry picked by `|x + y|` modulo the list length.
pub open spec fn spec_format_tile_url(
    template: Seq<char>,
    z: int,
    x: int,
    y: int,
    subdomains: Option<Seq<Seq<char>>>,
) -> Seq<char> {
    let u = spec_replace(
        spec_replace(
            spec_replace(template, seq!['{', 'z', '}'], int_digits(z)),
            seq!['{', 'x', '}'],
            int_digits(x),
        ),
        seq!['{', 'y', '}'],
        int_digits(y),
    );
    match subdomains {
        Some(subs) => {
            if subs.len() > 0 {
                let i = abs_int(x + y) % (subs.len() as int);
                spec_replace(u, seq!['{', 's', '}'], subs[i])
            } else {
                u
            }
        },
        None => u,
    }
}

/// The subdomain list as character sequences, as the URL formatter sees
/// it.
pub open spec fn subdomains_view(subdomains: Option<Vec<String>>) -> Option<Seq<Seq<char>>> {
    match subdomains {
        Some(subs) => Some(subs@.map_values(|s: String| s@)),
        None => None,
    }
}

/// The absolute value of an integer.
pub open spec fn abs_int(v: int) -> int {
    if v < 0 {
        -v
    } else {
        v
    }
}

/// One decimal digit, as a string slice.
fn digit_str(d: u64) -> (r: &'static str)
    requires
        d < 10,
    ensures
        r@ =~= seq![digit_char(d as nat)],
        r@.len() == 1,
{
    proof {
        reveal_strlit("0");
        reveal_strlit("1");
        reveal_strlit("2");
        reveal_strlit("3");
        reveal_strlit("4");
        reveal_strlit("5");
        reveal_strlit("6");
        reveal_strlit("7");
        reveal_strlit("8");
        reveal_strlit("9");
    }
    if d == 0 {
        "0"
    } else if d == 1 {
        "1"
    } else if d == 2 {
        "2"
    } else if d == 3 {
        "3"
    } else if d == 4 {
        "4"
    } else if d == 5 {
        "5"
    } else if d == 6 {
        "6"
    } else if d == 7 {
        "7"
    } else if d == 8 {
        "8"
    } else {
        "9"
    }
}

/// The decimal form of a 64-bit number.
pub fn u64_to_string(n: u64) -> (r: String)
    ensures
        r@ == dec_digits(n as nat),
    decreases n,
{
    if n < 10 {
        let r = String::from_str(digit_str(n));
        proof {
            assert(r@ =~= dec_digits(n as nat));
        }
        r
    } else {
        let mut r = u64_to_string(n / 10);
        r.append(digit_str(n % 10));
        proof {
            assert(r@ =~= dec_digits(n as nat));
        }
        r
    }
}

/// The decimal form of a 64-bit signed number.
pub fn i64_to_string(v: i64) -> (r: String)
    ensures
        r@ == int_digits(v as int),
{
    if v < 0 {
        proof {
            reveal_strlit("-");
        }
        let mut r = String::from_str("-");
        let m = (-(v as i128)) as u64;
        r.append(u64_to_string(m).as_str());
        proof {
            assert(r@ =~= int_digits(v as int));
        }
        r
    } else {
        u64_to_string(v as u64)
    }
}

/// Whether `pat` occurs in `s` at position `i`.
fn matches_at(s: &str, slen: usize, i: usize, pat: &str, plen: usize) -> (b: bool)
    requires
        slen == s@.len(),
        plen == pat@.len(),
        i + plen <= slen,
    ensures
        b <==> s@.subrange(i as int, (i + plen) as int) == pat@,
{
    let mut j: usize = 0;
    while j < plen
        invariant
            0 <= j <= plen,
            slen == s@.len(),
            plen == pat@.len(),
            i + plen <= slen,
            forall|k: int| 0 <= k < j ==> s@[i + k] == pat@[k],
        decreases plen - j,
    {
        let cs = s.get_char(i + j);
        let cp = pat.get_char(j);
        if cs != cp {
            proof {
                assert(s@.subrange(i as int, (i + plen) as int)[j as int] != pat@[j as int]);
            }
            return false;
        }
        j = j + 1;
    }
    proof {
        assert(s@.subrange(i as int, (i + plen) as int) =~= pat@);
    }
    true
}

/// `s` with every occurrence of `pat` replaced by `rep`, scanning left to
/// right without overlap.
pub fn replace_all(s: &str, pat: &str, rep: &str) -> (r: String)
    requires
        pat@.len() >= 1,
    ensures
        r@ == spec_replace(s@, pat@, rep@),
{
    let slen = s.unicode_len();
    let plen = pat.unicode_len();
    let mut out = String::new();
    let mut i: usize = 0;
    proof {
        assert(s@.subrange(0, slen as int) =~= s@);
    }
    while plen <= slen - i
        invariant
            0 <= i <= slen,
            slen == s@.len(),
            plen == pat@.len(),
            plen >= 1,
            spec_replace(s@, pat@, rep@) == out@ + spec_replace(
                s@.subrange(i as int, slen as int),
                pat@,
                rep@,
            ),
        decreases slen - i,
    {
        let ghost rem = s@.subrange(i as int, slen as int);
        if matches_at(s, slen, i, pat, plen) {
            out.append(rep);
            proof {
                assert(rem.subrange(0, plen as int) =~= s@.subrange(
                    i as int,
                    (i + plen) as int,
                ));
                assert(rem.subrange(plen as int, rem.len() as int) =~= s@.subrange(
                    (i + plen) as int,
                    slen as int,
                ));
                assert(spec_replace(rem, pat@, rep@) == rep@ + spec_replace(
                    s@.subrange((i + plen) as int, slen as int),
                    pat@,
                    rep@,
                ));
            }
            i = i + plen;
        } else {
            let c = s.substring_char(i, i + 1);
            out.append(c);
            proof {
                assert(rem.subrange(0, plen as int) =~= s@.subrange(
                    i as int,
                    (i + plen) as int,
                ));
                assert(rem.subrange(1, rem.len() as int) =~= s@.subrange(
                    (i + 1) as int,
                    slen as int,
                ));
                assert(c@ =~= seq![rem[0]]);
                assert(spec_replace(rem, pat@, rep@) == seq![rem[0]] + spec_replace(
                    s@.subrange((i + 1) as int, slen as int),
                    pat@,
                    rep@,
                ));
            }
            i = i + 1;
        }
    }
    let tail = s.substring_char(i, slen);
    out.append(tail);
    proof {
        assert(spec_replace(s@.subrange(i as int, slen as int), pat@, rep@) == s@.subrange(
            i as int,
            slen as int,
        ));
        assert(out@ =~= spec_replace(s@, pat@, rep@));
    }
    out
}

/// Builds the URL for one tile from a template holding `{z}`, `{x}`, `{y}`
/// and optionally `{s}` placeholders; `{s}` picks a subdomain by
/// `|x + y|` modulo the list length, and is left untouched without one.
pub fn format_tile_url(
    url_template: &str,
    z: usize,
    x: i32,
    y: i32,
    subdomains: &Option<Vec<String>>,
) -> (r: String)
    ensures
        r@ == spec_format_tile_url(
            url_template@,
            z as int,
            x as int,
            y as int,
            match subdomains {
                Some(subs) => Some(subs@.map_values(|s: String| s@)),
                None => None,
            },
        ),
{
    proof {
        reveal_strlit("{z}");
        reveal_strlit("{x}");
        reveal_strlit("{y}");
        reveal_strlit("{s}");
        assert("{z}"@ =~= seq!['{', 'z', '}']);
        assert("{x}"@ =~= seq!['{', 'x', '}']);
        assert("{y}"@ =~= seq!['{', 'y', '}']);
        assert("{s}"@ =~= seq!['{', 's', '}']);
    }
    let with_z = replace_all(url_template, "{z}", u64_to_string(z as u64).as_str());
    proof {
        assert(dec_digits((z as u64) as nat) == int_digits(z as int));
    }
    let with_x = replace_all(with_z.as_str(), "{x}", i64_to_string(x as i64).as_str());
    let with_y = replace_all(with_x.as_str(), "{y}", i64_to_string(y as i64).as_str());
    let mut url = with_y;
    match subdomains {
        Some(subs) => {
            let count = subs.len();
            if count > 0 {
                let sum = (x as i64) + (y as i64);
                let mag = if sum < 0 {
                    (-(sum as i128)) as u64
                } else {
                    sum as u64
                };
                let idx = (mag % (count as u64)) as usize;
                proof {
                    assert(idx as int == abs_int(x as int + y as int) % (subs@.len() as int));
                    assert(subs@.map_values(|s: String| s@)[idx as int] == subs@[idx as int]@);
                }
                url = replace_all(url.as_str(), "{s}", subs[idx].as_str());
            }
        },
        None => {},
    }
    url
}

impl TileId {
    /// The address as text: level, column and row separated by slashes.
    pub fn id_string(&self) -> (r: String)
        ensures
            r@ == dec_digits(self.z as nat) + seq!['/'] + int_digits(self.x as int) + seq!['/']
                + int_digits(self.y as int),
    {
        proof {
            reveal_strlit("/");
        }
        let mut r = u64_to_string(self.z as u64);
        r.append("/");
        r.append(i64_to_string(self.x as i64).as_str());
        r.append("/");
        r.append(i64_to_string(self.y as i64).as_str());
        proof {
            assert(r@ =~= dec_digits(self.z as nat) + seq!['/'] + int_digits(self.x as int)
                + seq!['/'] + int_digits(self.y as int));
        }
        r
    }
}

} // verus!
