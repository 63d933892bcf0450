//! The on-disk record format for one metadata value: a small JSON-style
//! object `{"path":"...","is_dir":...}` with the usual string escapes.
//! Values that do not parse in this form are legacy bare path strings.

use vstd::prelude::*;
use crate::meta::TrashItem;

verus! {

/// The escaped form of one character inside the quoted path.
pub open spec fn esc_char(c: char) -> Seq<char> {
    if c == '"' {
        seq!['\\', '"']
    } else if c == '\\' {
        seq!['\\', '\\']
    } else if c == '\n' {
        seq!['\\', 'n']
    } else if c == '\r' {
        seq!['\\', 'r']
    } else if c == '\t' {
        seq!['\\', 't']
    } else {
        seq![c]
    }
}

/// The escaped form of a whole string.
pub open spec fn json_escape(s: Seq<char>) -> Seq<char>
    decreases s.len(),
{
    if s.len() == 0 {
        Seq::empty()
    } else {
        esc_char(s[0]) + json_escape(s.drop_first())
    }
}

pub proof fn lemma_escape_push(s: Seq<char>, c: char)
    ensures
        json_escape(s.push(c)) == json_escape(s) + esc_char(c),
    decreases s.len(),
{
    if s.len() == 0 {
        assert(s.push(c).drop_first() =~= Seq::<char>::empty());
        assert(s.push(c)[0] == c);
        assert(json_escape(s.push(c)) == esc_char(c) + json_escape(s.push(c).drop_first()));
        assert(json_escape(s.push(c).drop_first()) == Seq::<char>::empty());
        assert(json_escape(s.push(c)) =~= json_escape(s) + esc_char(c));
    } else {
        assert(s.push(c).drop_first() =~= s.drop_first().push(c));
        assert(s.push(c)[0] == s[0]);
        lemma_escape_push(s.drop_first(), c);
        assert(json_escape(s.push(c)) =~= json_escape(s) + esc_char(c));
    }
}

/// `{"path":"` — the opening of a record.
pub open spec fn rec_open() -> Seq<char> {
    seq!['{', '"', 'p', 'a', 't', 'h', '"', ':', '"']
}

/// `","is_dir":` — between the path and the type bit.
pub open spec fn rec_mid() -> Seq<char> {
    seq!['"', ',', '"', 'i', 's', '_', 'd', 'i', 'r', '"', ':']
}

pub open spec fn lit_true() -> Seq<char> {
    seq!['t', 'r', 'u', 'e']
}

pub open spec fn lit_false() -> Seq<char> {
    seq!['f', 'a', 'l', 's', 'e']
}

/// The record serialization of (path, is_dir).
pub open spec fn record_str(p: Seq<char>, d: bool) -> Seq<char> {
    rec_open() + json_escape(p) + rec_mid() + (if d {
        lit_true()
    } else {
        lit_false()
    }) + seq!['}']
}

/// The character an escape pair `\x` stands for, if `x` is recognized.
pub open spec fn unesc_char(x: char) -> Option<char> {
    if x == '"' {
        Some('"')
    } else if x == '\\' {
        Some('\\')
    } else if x == 'n' {
        Some('\n')
    } else if x == 'r' {
        Some('\r')
    } else if x == 't' {
        Some('\t')
    } else {
        None
    }
}

/// Reads the quoted-string body that starts `s`, up to an unescaped `"`.
/// Returns the decoded characters and how many input characters they took
/// (the terminating quote not included).
pub open spec fn unesc(s: Seq<char>) -> Option<(Seq<char>, nat)>
    decreases s.len(),
{
    if s.len() == 0 {
        None
    } else if s[0] == '"' {
        Some((Seq::empty(), 0))
    } else if s[0] == '\\' {
        if s.len() < 2 {
            None
        } else {
            match unesc_char(s[1]) {
                Some(c) => match unesc(s.skip(2)) {
                    Some(pn) => Some((seq![c] + pn.0, pn.1 + 2)),
                    None => None,
                },
                None => None,
            }
        }
    } else if s[0] == '\n' || s[0] == '\r' || s[0] == '\t' {
        None
    } else {
        match unesc(s.drop_first()) {
            Some(pn) => Some((seq![s[0]] + pn.0, pn.1 + 1)),
            None => None,
        }
    }
}

/// What a metadata value denotes when read as a record; `None` means the
/// value is not in record form and is treated as a legacy bare path.
pub open spec fn spec_parse_record(s: Seq<char>) -> Option<(Seq<char>, bool)> {
    if s.len() < 9 || s.subrange(0, 9) != rec_open() {
        None
    } else {
        match unesc(s.skip(9)) {
            Some(pn) => {
                let rest = s.skip(9 + pn.1 as int);
                if rest =~= rec_mid() + lit_true() + seq!['}'] {
                    Some((pn.0, true))
                } else if rest =~= rec_mid() + lit_false() + seq!['}'] {
                    Some((pn.0, false))
                } else {
                    None
                }
            },
            None => None,
        }
    }
}

/// Decoding an escaped string body stops exactly at the quote that
/// follows it and recovers the original characters.
pub proof fn lemma_unesc_of_escape(p: Seq<char>, rest: Seq<char>)
    requires
        rest.len() > 0,
        rest[0] == '"',
    ensures
        unesc(json_escape(p) + rest) == Some((p, json_escape(p).len())),
    decreases p.len(),
{
    let s = json_escape(p) + rest;
    if p.len() == 0 {
        assert(s =~= rest);
    } else {
        let c = p[0];
        lemma_unesc_of_escape(p.drop_first(), rest);
        let tail = json_escape(p.drop_first()) + rest;
        assert(s =~= esc_char(c) + tail);
        if c == '"' || c == '\\' || c == '\n' || c == '\r' || c == '\t' {
            assert(s[0] == '\\');
            assert(s.len() >= 2);
            assert(s[1] == esc_char(c)[1]);
            assert(unesc_char(s[1]) == Some(c));
            assert(s.skip(2) =~= tail);
            let pn = unesc(tail).unwrap();
            assert(seq![c] + pn.0 =~= p);
        } else {
            assert(s[0] == c);
            assert(c != '"' && c != '\\' && c != '\n' && c != '\r' && c != '\t');
            assert(s.drop_first() =~= tail);
            let pn = unesc(tail).unwrap();
            assert(seq![c] + pn.0 =~= p);
        }
    }
}

/// A record always parses back to exactly what was encoded.
pub proof fn lemma_record_round_trip(p: Seq<char>, d: bool)
    ensures
        spec_parse_record(record_str(p, d)) == Some((p, d)),
{
    let s = record_str(p, d);
    let lit = if d {
        lit_true()
    } else {
        lit_false()
    };
    let rest = rec_mid() + lit + seq!['}'];
    assert(rest[0] == '"');
    assert(s =~= rec_open() + (json_escape(p) + rest));
    assert(s.len() >= 9 + json_escape(p).len() + rest.len());
    assert(s.subrange(0, 9) =~= rec_open());
    assert(s.skip(9) =~= json_escape(p) + rest);
    lemma_unesc_of_escape(p, rest);
    assert(unesc(s.skip(9)) == Some((p, json_escape(p).len())));
    assert(s.skip(9 + json_escape(p).len() as int) =~= rest);
    if d {
        assert(rest =~= rec_mid() + lit_true() + seq!['}']);
    } else {
        assert(rest.len() == rec_mid().len() + 6);
        assert(rest != rec_mid() + lit_true() + seq!['}']) by {
            assert((rec_mid() + lit_true() + seq!['}']).len() == rec_mid().len() + 5);
        }
        assert(rest =~= rec_mid() + lit_false() + seq!['}']);
    }
}

/// Reads a metadata value as a record, if it is in record form.
pub fn parse_record(s: &str) -> (r: Option<TrashItem>)
    ensures
        match r {
            Some(item) => spec_parse_record(s@) == Some((item.path@, item.is_dir)),
            None => spec_parse_record(s@) is None,
        },
{
    proof {
        reveal_strlit("{\"path\":\"");
        reveal_strlit("\",\"is_dir\":true}");
        reveal_strlit("\",\"is_dir\":false}");
    }
    let n = s.unicode_len();
    if !crate::strutil::str_matches_at(s, 0, "{\"path\":\"") {
        proof {
            assert("{\"path\":\""@ =~= rec_open());
            if s@.len() >= 9 {
                assert(s@.subrange(0, 9) == s@.subrange(0, 0 + rec_open().len() as int));
            }
        }
        return None;
    }
    proof {
        assert("{\"path\":\""@ =~= rec_open());
        assert(s@.subrange(0, 9) == rec_open());
    }
    let mut i: usize = 9;
    let mut path = String::new();
    loop
        invariant
            9 <= i <= n,
            n == s@.len(),
            unesc(s@.skip(i as int)) is Some ==> unesc(s@.skip(9)) == Some(
                (
                    path@ + unesc(s@.skip(i as int)).unwrap().0,
                    (unesc(s@.skip(i as int)).unwrap().1 + i - 9) as nat,
                ),
            ),
            unesc(s@.skip(i as int)) is None ==> unesc(s@.skip(9)) is None,
        ensures
            9 <= i <= n,
            n == s@.len(),
            s@[i as int] == '"',
            unesc(s@.skip(9)) == Some((path@, (i - 9) as nat)),
        decreases n - i,
    {
        let ghost t = s@.skip(i as int);
        if i == n {
            proof {
                assert(t =~= Seq::<char>::empty());
            }
            return None;
        }
        let c = s.get_char(i);
        proof {
            assert(t[0] == s@[i as int]);
        }
        if c == '"' {
            proof {
                assert(unesc(t) == Some((Seq::<char>::empty(), 0nat)));
                assert(path@ + Seq::<char>::empty() =~= path@);
            }
            break;
        } else if c == '\\' {
            if i + 1 == n {
                proof {
                    assert(t.len() < 2);
                }
                return None;
            }
            let x = s.get_char(i + 1);
            proof {
                assert(t[1] == s@[i + 1]);
            }
            let dec: char;
            if x == '"' {
                dec = '"';
            } else if x == '\\' {
                dec = '\\';
            } else if x == 'n' {
                dec = '\n';
            } else if x == 'r' {
                dec = '\r';
            } else if x == 't' {
                dec = '\t';
            } else {
                proof {
                    assert(unesc_char(t[1]) is None);
                }
                return None;
            }
            let ghost path0 = path@;
            path.push(dec);
            proof {
                assert(unesc_char(t[1]) == Some(dec));
                assert(t.skip(2) =~= s@.skip(i + 2));
                if unesc(s@.skip(i + 2)) is Some {
                    let pn = unesc(s@.skip(i + 2)).unwrap();
                    assert(unesc(t) == Some((seq![dec] + pn.0, (pn.1 + 2) as nat)));
                    assert(path0 + (seq![dec] + pn.0) =~= path@ + pn.0);
                }
            }
            i += 2;
        } else if c == '\n' || c == '\r' || c == '\t' {
            proof {
                assert(unesc(t) is None);
            }
            return None;
        } else {
            let ghost path0 = path@;
            path.push(c);
            proof {
                assert(t.drop_first() =~= s@.skip(i + 1));
                if unesc(s@.skip(i + 1)) is Some {
                    let pn = unesc(s@.skip(i + 1)).unwrap();
                    assert(unesc(t) == Some((seq![c] + pn.0, (pn.1 + 1) as nat)));
                    assert(path0 + (seq![c] + pn.0) =~= path@ + pn.0);
                }
            }
            i += 1;
        }
    }
    // the quote at `i` ends the path: unesc of the body is fully known
    proof {
        assert(s@.skip(9 + (i - 9)) == s@.skip(i as int));
    }
    let is_dir: bool;
    if crate::strutil::str_matches_at(s, i, "\",\"is_dir\":true}") && n - i == 16 {
        is_dir = true;
        proof {
            assert("\",\"is_dir\":true}"@ =~= rec_mid() + lit_true() + seq!['}']);
            assert(s@.subrange(i as int, i + 16) =~= s@.skip(i as int));
            assert(s@.skip(i as int) =~= rec_mid() + lit_true() + seq!['}']);
        }
    } else if crate::strutil::str_matches_at(s, i, "\",\"is_dir\":false}") && n - i == 17 {
        is_dir = false;
        proof {
            assert("\",\"is_dir\":false}"@ =~= rec_mid() + lit_false() + seq!['}']);
            assert(s@.subrange(i as int, i + 17) =~= s@.skip(i as int));
            assert(s@.skip(i as int) =~= rec_mid() + lit_false() + seq!['}']);
            assert(s@.skip(i as int) != rec_mid() + lit_true() + seq!['}']);
        }
    } else {
        proof {
            let rest = s@.skip(i as int);
            assert(rest.len() == n - i);
            let mt = rec_mid() + lit_true() + seq!['}'];
            let mf = rec_mid() + lit_false() + seq!['}'];
            assert(mt.len() == 16 && mf.len() == 17) by {
                assert("\",\"is_dir\":true}"@ =~= mt);
                assert("\",\"is_dir\":false}"@ =~= mf);
            }
            if rest == mt {
                assert(n - i == 16);
                assert(s@.subrange(i as int, i + 16) =~= rest);
                assert("\",\"is_dir\":true}"@ =~= mt);
            }
            if rest == mf {
                assert(n - i == 17);
                assert(s@.subrange(i as int, i + 17) =~= rest);
                assert("\",\"is_dir\":false}"@ =~= mf);
            }
        }
        return None;
    }
    Some(TrashItem { path, is_dir })
}

/// Serializes one metadata record.
pub fn encode_record(item: &TrashItem) -> (r: String)
    ensures
        r@ == record_str(item.path@, item.is_dir),
{
    proof {
        reveal_strlit("{\"path\":\"");
        reveal_strlit("\\\"");
        reveal_strlit("\\\\");
        reveal_strlit("\\n");
        reveal_strlit("\\r");
        reveal_strlit("\\t");
        reveal_strlit("\",\"is_dir\":");
        reveal_strlit("true");
        reveal_strlit("false");
        reveal_strlit("}");
    }
    let mut out = String::new();
    out.append("{\"path\":\"");
    proof {
        assert(out@ =~= rec_open());
    }
    let p = item.path.as_str();
    let n = p.unicode_len();
    let mut i: usize = 0;
    while i < n
        invariant
            n == p@.len(),
            i <= n,
            out@ == rec_open() + json_escape(p@.subrange(0, i as int)),
        decreases n - i,
    {
        let ghost pre = p@.subrange(0, i as int);
        let c = p.get_char(i);
        if c == '"' {
            out.append("\\\"");
            proof {
                reveal_strlit("\\\"");
                assert("\\\""@ =~= esc_char(c));
            }
        } else if c == '\\' {
            out.append("\\\\");
            proof {
                reveal_strlit("\\\\");
                assert("\\\\"@ =~= esc_char(c));
            }
        } else if c == '\n' {
            out.append("\\n");
            proof {
                reveal_strlit("\\n");
                assert("\\n"@ =~= esc_char(c));
            }
        } else if c == '\r' {
            out.append("\\r");
            proof {
                reveal_strlit("\\r");
                assert("\\r"@ =~= esc_char(c));
            }
        } else if c == '\t' {
            out.append("\\t");
            proof {
                reveal_strlit("\\t");
                assert("\\t"@ =~= esc_char(c));
            }
        } else {
            out.push(c);
            proof {
                assert(out@ =~= (rec_open() + json_escape(pre)) + esc_char(c));
            }
        }
        proof {
            lemma_escape_push(pre, c);
            assert(p@.subrange(0, i + 1) =~= pre.push(c));
            assert(out@ =~= rec_open() + json_escape(p@.subrange(0, i + 1)));
        }
        i += 1;
    }
    proof {
        assert(p@.subrange(0, n as int) =~= p@);
    }
    out.append("\",\"is_dir\":");
    proof {
        assert("\",\"is_dir\":"@ =~= rec_mid());
        assert(out@ =~= rec_open() + json_escape(p@) + rec_mid());
    }
    if item.is_dir {
        out.append("true");
        proof {
            assert("true"@ =~= lit_true());
        }
    } else {
        out.append("false");
        proof {
            assert("false"@ =~= lit_false());
        }
    }
    out.push('}');
    proof {
        assert(out@ =~= record_str(item.path@, item.is_dir));
    }
    out
}

} // verus!
