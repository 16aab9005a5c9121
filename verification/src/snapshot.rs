//! The persistence codec: the store's whole contents as one snapshot text,
//! `{"data":[["key","value"],...]}`, with quote, backslash and newline
//! escaped inside the quoted strings. `save` encodes, `load` decodes and
//! merges; decoding an encoded snapshot gives the pairs back exactly.

use vstd::prelude::*;
use vstd::string::*;

use crate::store::{map_of_pairs, pairs_of, Entry, KeyValueStore};
use crate::strops::{push_char, str_eq};

verus! {

/// The snapshot load error: the text is not a well-formed snapshot.
pub struct SnapshotError {}

/// How one character appears inside a quoted snapshot string: quote,
/// backslash and newline are escaped, every other character stands as itself.
pub open spec fn esc_char(c: char) -> Seq<char> {
    if c == '"' {
        seq!['\\', '"']
    } else if c == '\\' {
        seq!['\\', '\\']
    } else if c == '\n' {
        seq!['\\', 'n']
    } else {
        seq![c]
    }
}

/// A whole string, escaped.
pub open spec fn esc(s: Seq<char>) -> Seq<char>
    decreases s.len(),
{
    if s.len() == 0 {
        Seq::empty()
    } else {
        esc_char(s[0]) + esc(s.drop_first())
    }
}

/// One `["key","value"]` element.
pub open spec fn enc_pair(p: (Seq<char>, Seq<char>)) -> Seq<char> {
    seq!['[', '"'] + esc(p.0) + seq!['"', ',', '"'] + esc(p.1) + seq!['"', ']']
}

/// The elements after the first, each preceded by a comma.
pub open spec fn enc_more(ps: Seq<(Seq<char>, Seq<char>)>) -> Seq<char>
    decreases ps.len(),
{
    if ps.len() == 0 {
        Seq::empty()
    } else {
        seq![','] + enc_pair(ps[0]) + enc_more(ps.drop_first())
    }
}

/// The comma-separated element list.
pub open spec fn enc_items(ps: Seq<(Seq<char>, Seq<char>)>) -> Seq<char> {
    if ps.len() == 0 {
        Seq::empty()
    } else {
        enc_pair(ps[0]) + enc_more(ps.drop_first())
    }
}

/// A whole snapshot: an object with one `data` field holding the pair list.
pub open spec fn spec_encode(ps: Seq<(Seq<char>, Seq<char>)>) -> Seq<char> {
    "{\"data\":["@ + enc_items(ps) + "]}"@
}

/// Parse the inside of a quoted string up to and including its closing
/// quote; yields the unescaped content and the rest of the input.
pub open spec fn sp_str(t: Seq<char>) -> Option<(Seq<char>, Seq<char>)>
    decreases t.len(),
{
    if t.len() == 0 {
        None
    } else if t[0] == '"' {
        Some((Seq::empty(), t.drop_first()))
    } else if t[0] == '\\' {
        if t.len() >= 2 && (t[1] == '"' || t[1] == '\\' || t[1] == 'n') {
            let c = if t[1] == '"' {
                '"'
            } else if t[1] == '\\' {
                '\\'
            } else {
                '\n'
            };
            match sp_str(t.skip(2)) {
                Some((u, r)) => Some((seq![c] + u, r)),
                None => None,
            }
        } else {
            None
        }
    } else {
        match sp_str(t.drop_first()) {
            Some((u, r)) => Some((seq![t[0]] + u, r)),
            None => None,
        }
    }
}

/// Parse one `["key","value"]` element; yields the pair and the rest.
pub open spec fn sp_pair(t: Seq<char>) -> Option<((Seq<char>, Seq<char>), Seq<char>)> {
    if t.len() >= 2 && t[0] == '[' && t[1] == '"' {
        match sp_str(t.skip(2)) {
            Some((k, r1)) => if r1.len() >= 2 && r1[0] == ',' && r1[1] == '"' {
                match sp_str(r1.skip(2)) {
                    Some((v, r2)) => if r2.len() >= 1 && r2[0] == ']' {
                        Some(((k, v), r2.drop_first()))
                    } else {
                        None
                    },
                    None => None,
                }
            } else {
                None
            },
            None => None,
        }
    } else {
        None
    }
}

/// A successful string parse consumes at least its closing quote.
pub proof fn lemma_sp_str_progress(t: Seq<char>)
    ensures
        sp_str(t) matches Some((u, r)) ==> r.len() < t.len(),
    decreases t.len(),
{
    if t.len() == 0 {
    } else if t[0] == '"' {
    } else if t[0] == '\\' {
        if t.len() >= 2 && (t[1] == '"' || t[1] == '\\' || t[1] == 'n') {
            lemma_sp_str_progress(t.skip(2));
        }
    } else {
        lemma_sp_str_progress(t.drop_first());
    }
}

/// A successful element parse consumes at least one character.
pub proof fn lemma_sp_pair_progress(t: Seq<char>)
    ensures
        sp_pair(t) matches Some((p, r)) ==> r.len() < t.len(),
{
    if t.len() >= 2 && t[0] == '[' && t[1] == '"' {
        lemma_sp_str_progress(t.skip(2));
        match sp_str(t.skip(2)) {
            Some((k, r1)) => {
                if r1.len() >= 2 && r1[0] == ',' && r1[1] == '"' {
                    lemma_sp_str_progress(r1.skip(2));
                }
            },
            None => {},
        }
    }
}

/// Elements after the first: either the closing `]`, or a comma and one more
/// element, repeated.
pub open spec fn sp_more(t: Seq<char>) -> Option<(Seq<(Seq<char>, Seq<char>)>, Seq<char>)>
    decreases t.len(),
{
    if t.len() == 0 {
        None
    } else if t[0] == ']' {
        Some((Seq::empty(), t.drop_first()))
    } else if t[0] == ',' {
        match sp_pair(t.drop_first()) {
            Some((p, r)) => {
                proof {
                    lemma_sp_pair_progress(t.drop_first());
                }
                match sp_more(r) {
                    Some((ps, r2)) => Some((seq![p] + ps, r2)),
                    None => None,
                }
            },
            None => None,
        }
    } else {
        None
    }
}

/// The element list of a snapshot, after its opening `[`: empty, or a first
/// element and the rest, ended by `]`.
pub open spec fn sp_items(t: Seq<char>) -> Option<(Seq<(Seq<char>, Seq<char>)>, Seq<char>)> {
    if t.len() == 0 {
        None
    } else if t[0] == ']' {
        Some((Seq::empty(), t.drop_first()))
    } else {
        match sp_pair(t) {
            Some((p, r)) => match sp_more(r) {
                Some((ps, r2)) => Some((seq![p] + ps, r2)),
                None => None,
            },
            None => None,
        }
    }
}

/// Decode a whole snapshot text into its pair list, or nothing if the text
/// is not a well-formed snapshot.
pub open spec fn sp_snapshot(t: Seq<char>) -> Option<Seq<(Seq<char>, Seq<char>)>> {
    if t.len() >= 9 && t.take(9) == "{\"data\":["@ {
        match sp_items(t.skip(9)) {
            Some((ps, r)) => if r == seq!['}'] {
                Some(ps)
            } else {
                None
            },
            None => None,
        }
    } else {
        None
    }
}

/// Unescaping inverts escaping: the string parser applied to an escaped
/// string, its closing quote and anything after gives the string back and
/// leaves exactly that rest.
pub proof fn lemma_sp_str_esc(s: Seq<char>, rest: Seq<char>)
    ensures
        sp_str(esc(s) + seq!['"'] + rest) == Some((s, rest)),
    decreases s.len(),
{
    let t = esc(s) + seq!['"'] + rest;
    if s.len() == 0 {
        assert(esc(s) =~= Seq::<char>::empty());
        assert(t =~= seq!['"'] + rest);
        assert(t[0] == '"');
        assert(t.drop_first() =~= rest);
        assert(s =~= Seq::<char>::empty());
    } else {
        let c = s[0];
        let s1 = s.drop_first();
        lemma_sp_str_esc(s1, rest);
        assert(seq![c] + s1 =~= s);
        if c == '"' || c == '\\' || c == '\n' {
            let e = if c == '"' {
                '"'
            } else if c == '\\' {
                '\\'
            } else {
                'n'
            };
            assert(esc(s) =~= seq!['\\', e] + esc(s1));
            assert(t.len() >= 2);
            assert(t[0] == '\\');
            assert(t[1] == e);
            assert(t.skip(2) =~= esc(s1) + seq!['"'] + rest);
        } else {
            assert(esc(s) =~= seq![c] + esc(s1));
            assert(t[0] == c);
            assert(t.drop_first() =~= esc(s1) + seq!['"'] + rest);
        }
    }
}

/// The element parser inverts the element encoder.
pub proof fn lemma_sp_pair_enc(p: (Seq<char>, Seq<char>), rest: Seq<char>)
    ensures
        sp_pair(enc_pair(p) + rest) == Some((p, rest)),
{
    let t = enc_pair(p) + rest;
    let r1 = seq![',', '"'] + esc(p.1) + seq!['"', ']'] + rest;
    let r2 = seq![']'] + rest;
    assert(t.len() >= 2);
    assert(t[0] == '[');
    assert(t[1] == '"');
    assert(t.skip(2) =~= esc(p.0) + seq!['"'] + r1);
    lemma_sp_str_esc(p.0, r1);
    assert(r1.len() >= 2);
    assert(r1[0] == ',');
    assert(r1[1] == '"');
    assert(r1.skip(2) =~= esc(p.1) + seq!['"'] + r2);
    lemma_sp_str_esc(p.1, r2);
    assert(r2[0] == ']');
    assert(r2.drop_first() =~= rest);
    assert(p == (p.0, p.1));
}

/// The rest-of-list parser inverts the rest-of-list encoder.
pub proof fn lemma_sp_more_enc(ps: Seq<(Seq<char>, Seq<char>)>, rest: Seq<char>)
    ensures
        sp_more(enc_more(ps) + seq![']'] + rest) == Some((ps, rest)),
    decreases ps.len(),
{
    let t = enc_more(ps) + seq![']'] + rest;
    if ps.len() == 0 {
        assert(enc_more(ps) =~= Seq::<char>::empty());
        assert(t =~= seq![']'] + rest);
        assert(t[0] == ']');
        assert(t.drop_first() =~= rest);
        assert(ps =~= Seq::<(Seq<char>, Seq<char>)>::empty());
    } else {
        let p0 = ps[0];
        let ps1 = ps.drop_first();
        assert(enc_more(ps) == seq![','] + enc_pair(p0) + enc_more(ps1));
        assert(t[0] == ',');
        assert(t.drop_first() =~= enc_pair(p0) + (enc_more(ps1) + seq![']'] + rest));
        lemma_sp_pair_enc(p0, enc_more(ps1) + seq![']'] + rest);
        lemma_sp_more_enc(ps1, rest);
        assert(seq![p0] + ps1 =~= ps);
    }
}

/// The list parser inverts the list encoder.
pub proof fn lemma_sp_items_enc(ps: Seq<(Seq<char>, Seq<char>)>, rest: Seq<char>)
    ensures
        sp_items(enc_items(ps) + seq![']'] + rest) == Some((ps, rest)),
{
    let t = enc_items(ps) + seq![']'] + rest;
    if ps.len() == 0 {
        assert(enc_items(ps) =~= Seq::<char>::empty());
        assert(t =~= seq![']'] + rest);
        assert(t[0] == ']');
        assert(t.drop_first() =~= rest);
        assert(ps =~= Seq::<(Seq<char>, Seq<char>)>::empty());
    } else {
        let p0 = ps[0];
        let ps1 = ps.drop_first();
        assert(enc_items(ps) == enc_pair(p0) + enc_more(ps1));
        assert(enc_pair(p0)[0] == '[');
        assert(t[0] == '[');
        assert(t.len() > 0);
        assert(t =~= enc_pair(p0) + (enc_more(ps1) + seq![']'] + rest));
        lemma_sp_pair_enc(p0, enc_more(ps1) + seq![']'] + rest);
        lemma_sp_more_enc(ps1, rest);
        assert(seq![p0] + ps1 =~= ps);
    }
}

/// Round trip: decoding an encoded pair list gives the list back exactly,
/// so a saved snapshot restores precisely the key-to-value pairs it was
/// made from.
pub proof fn lemma_snapshot_round_trip(ps: Seq<(Seq<char>, Seq<char>)>)
    ensures
        sp_snapshot(spec_encode(ps)) == Some(ps),
{
    reveal_strlit("{\"data\":[");
    reveal_strlit("]}");
    let head = "{\"data\":["@;
    let tail = "]}"@;
    assert(head.len() == 9);
    assert(tail =~= seq![']', '}']);
    let t = spec_encode(ps);
    assert(t =~= head + (enc_items(ps) + seq![']'] + seq!['}']));
    assert(t.take(9) =~= head);
    assert(t.skip(9) =~= enc_items(ps) + seq![']'] + seq!['}']);
    lemma_sp_items_enc(ps, seq!['}']);
}

/// Loading a snapshot into an empty store rebuilds exactly the snapshot's
/// mapping.
pub proof fn lemma_load_into_empty(m: Map<Seq<char>, Seq<char>>)
    ensures
        Map::<Seq<char>, Seq<char>>::empty().union_prefer_right(m) == m,
{
    assert(Map::<Seq<char>, Seq<char>>::empty().union_prefer_right(m) =~= m);
}

/// The escaped form of a string, built left to right.
fn escape_str(s: &str) -> (r: String)
    ensures
        r@ == esc(s@),
{
    let n = s.unicode_len();
    let mut r = String::new();
    let mut i: usize = 0;
    proof {
        assert(s@.skip(0) =~= s@);
        assert(r@ + esc(s@.skip(0)) =~= esc(s@));
    }
    while i < n
        invariant
            n == s@.len(),
            i <= n,
            r@ + esc(s@.skip(i as int)) == esc(s@),
        decreases n - i,
    {
        let c = s.get_char(i);
        proof {
            assert(s@.skip(i as int)[0] == c);
            assert(s@.skip(i as int).drop_first() =~= s@.skip(i as int + 1));
        }
        let ghost prev = r@;
        if c == '"' {
            push_char(&mut r, '\\');
            push_char(&mut r, '"');
        } else if c == '\\' {
            push_char(&mut r, '\\');
            push_char(&mut r, '\\');
        } else if c == '\n' {
            push_char(&mut r, '\\');
            push_char(&mut r, 'n');
        } else {
            push_char(&mut r, c);
        }
        proof {
            assert(r@ =~= prev + esc_char(c));
            assert(r@ + esc(s@.skip(i as int + 1)) =~= (prev + esc_char(c)) + esc(
                s@.skip(i as int + 1),
            ));
            assert((prev + esc_char(c)) + esc(s@.skip(i as int + 1)) =~= prev + (esc_char(c) + esc(
                s@.skip(i as int + 1),
            )));
        }
        i = i + 1;
    }
    proof {
        assert(s@.skip(n as int) =~= Seq::<char>::empty());
        assert(r@ + esc(s@.skip(n as int)) =~= r@);
    }
    r
}

/// One entry as its `["key","value"]` element text.
fn encode_pair(e: &Entry) -> (r: String)
    ensures
        r@ == enc_pair((e.key@, e.value@)),
{
    let mut r = String::from_str("[\"");
    let k = escape_str(e.key.as_str());
    r.append(k.as_str());
    r.append("\",\"");
    let v = escape_str(e.value.as_str());
    r.append(v.as_str());
    r.append("\"]");
    proof {
        reveal_strlit("[\"");
        reveal_strlit("\",\"");
        reveal_strlit("\"]");
        assert(r@ =~= enc_pair((e.key@, e.value@)));
    }
    r
}

/// Decode the inside of a quoted string up to its closing quote.
fn dec_str<'a>(t: &'a str) -> (r: Option<(String, &'a str)>)
    ensures
        match r {
            Some((u, rest)) => sp_str(t@) == Some((u@, rest@)),
            None => sp_str(t@) is None,
        },
    decreases t@.len(),
{
    let n = t.unicode_len();
    if n == 0 {
        None
    } else {
        let c = t.get_char(0);
        if c == '"' {
            let rest = t.substring_char(1, n);
            proof {
                assert(rest@ =~= t@.drop_first());
            }
            Some((String::new(), rest))
        } else if c == '\\' {
            if n >= 2 {
                let c1 = t.get_char(1);
                if c1 == '"' || c1 == '\\' || c1 == 'n' {
                    let d = if c1 == '"' {
                        '"'
                    } else if c1 == '\\' {
                        '\\'
                    } else {
                        '\n'
                    };
                    let t2 = t.substring_char(2, n);
                    proof {
                        assert(t2@ =~= t@.skip(2));
                    }
                    match dec_str(t2) {
                        Some((u, rest)) => {
                            let mut s = String::new();
                            push_char(&mut s, d);
                            s.append(u.as_str());
                            proof {
                                assert(s@ =~= seq![d] + u@);
                            }
                            Some((s, rest))
                        },
                        None => None,
                    }
                } else {
                    None
                }
            } else {
                None
            }
        } else {
            let t1 = t.substring_char(1, n);
            proof {
                assert(t1@ =~= t@.drop_first());
            }
            match dec_str(t1) {
                Some((u, rest)) => {
                    let mut s = String::new();
                    push_char(&mut s, c);
                    s.append(u.as_str());
                    proof {
                        assert(s@ =~= seq![c] + u@);
                    }
                    Some((s, rest))
                },
                None => None,
            }
        }
    }
}

/// Decode one `["key","value"]` element.
fn dec_pair<'a>(t: &'a str) -> (r: Option<(String, String, &'a str)>)
    ensures
        match r {
            Some((k, v, rest)) => sp_pair(t@) == Some(((k@, v@), rest@)),
            None => sp_pair(t@) is None,
        },
{
    let n = t.unicode_len();
    if n >= 2 && t.get_char(0) == '[' && t.get_char(1) == '"' {
        let t2 = t.substring_char(2, n);
        proof {
            assert(t2@ =~= t@.skip(2));
        }
        match dec_str(t2) {
            Some((k, r1)) => {
                let m = r1.unicode_len();
                if m >= 2 && r1.get_char(0) == ',' && r1.get_char(1) == '"' {
                    let r1b = r1.substring_char(2, m);
                    proof {
                        assert(r1b@ =~= r1@.skip(2));
                    }
                    match dec_str(r1b) {
                        Some((v, r2)) => {
                            let m2 = r2.unicode_len();
                            if m2 >= 1 && r2.get_char(0) == ']' {
                                let rest = r2.substring_char(1, m2);
                                proof {
                                    assert(rest@ =~= r2@.drop_first());
                                }
                                Some((k, v, rest))
                            } else {
                                None
                            }
                        },
                        None => None,
                    }
                } else {
                    None
                }
            },
            None => None,
        }
    } else {
        None
    }
}

/// Decode the elements after the first, ended by `]`.
fn dec_more<'a>(t: &'a str) -> (r: Option<(Vec<Entry>, &'a str)>)
    ensures
        match r {
            Some((es, rest)) => sp_more(t@) == Some((pairs_of(es@), rest@)),
            None => sp_more(t@) is None,
        },
    decreases t@.len(),
{
    let n = t.unicode_len();
    if n == 0 {
        None
    } else {
        let c = t.get_char(0);
        if c == ']' {
            let rest = t.substring_char(1, n);
            let es: Vec<Entry> = Vec::new();
            proof {
                assert(rest@ =~= t@.drop_first());
                assert(pairs_of(es@) =~= Seq::<(Seq<char>, Seq<char>)>::empty());
            }
            Some((es, rest))
        } else if c == ',' {
            let t1 = t.substring_char(1, n);
            proof {
                assert(t1@ =~= t@.drop_first());
            }
            match dec_pair(t1) {
                Some((k, v, r1)) => {
                    proof {
                        lemma_sp_pair_progress(t1@);
                    }
                    match dec_more(r1) {
                        Some((es, rest)) => {
                            let ghost gk = k@;
                            let ghost gv = v@;
                            let ghost before = es@;
                            let mut es = es;
                            es.insert(0, Entry { key: k, value: v });
                            proof {
                                assert(pairs_of(es@) =~= seq![(gk, gv)] + pairs_of(before));
                            }
                            Some((es, rest))
                        },
                        None => None,
                    }
                },
                None => None,
            }
        } else {
            None
        }
    }
}

/// Decode the element list of a snapshot, after its opening `[`.
fn dec_items<'a>(t: &'a str) -> (r: Option<(Vec<Entry>, &'a str)>)
    ensures
        match r {
            Some((es, rest)) => sp_items(t@) == Some((pairs_of(es@), rest@)),
            None => sp_items(t@) is None,
        },
{
    let n = t.unicode_len();
    if n == 0 {
        None
    } else if t.get_char(0) == ']' {
        let rest = t.substring_char(1, n);
        let es: Vec<Entry> = Vec::new();
        proof {
            assert(rest@ =~= t@.drop_first());
            assert(pairs_of(es@) =~= Seq::<(Seq<char>, Seq<char>)>::empty());
        }
        Some((es, rest))
    } else {
        match dec_pair(t) {
            Some((k, v, r1)) => match dec_more(r1) {
                Some((es, rest)) => {
                    let ghost gk = k@;
                    let ghost gv = v@;
                    let ghost before = es@;
                    let mut es = es;
                    es.insert(0, Entry { key: k, value: v });
                    proof {
                        assert(pairs_of(es@) =~= seq![(gk, gv)] + pairs_of(before));
                    }
                    Some((es, rest))
                },
                None => None,
            },
            None => None,
        }
    }
}

impl KeyValueStore {
    /// Encode the store's full contents as one snapshot text: the text is a
    /// well-formed snapshot and decodes back to exactly the store's mapping.
    pub fn save(&self) -> (out: String)
        ensures
            (match sp_snapshot(out@) {
                Some(ps) => map_of_pairs(ps) == self@,
                None => false,
            }),
    {
        let ghost ps = pairs_of(self.entries@);
        let mut out = String::from_str("{\"data\":[");
        let n = self.entries.len();
        if n == 0 {
            out.append("]}");
            proof {
                crate::store::lemma_view_def(self);
                assert(ps =~= Seq::<(Seq<char>, Seq<char>)>::empty());
                assert(out@ =~= spec_encode(ps));
                lemma_snapshot_round_trip(ps);
            }
            return out;
        }
        let first = encode_pair(&self.entries[0]);
        out.append(first.as_str());
        proof {
            assert(pairs_of(self.entries@)[0] == (self.entries@[0].key@, self.entries@[0].value@));
            assert(out@ =~= "{\"data\":["@ + enc_pair(ps[0]));
            assert(ps.drop_first() =~= ps.skip(1));
            assert(enc_items(ps) == enc_pair(ps[0]) + enc_more(ps.drop_first()));
            assert(out@ + enc_more(ps.skip(1)) =~= "{\"data\":["@ + (enc_pair(ps[0]) + enc_more(
                ps.skip(1),
            )));
        }
        let mut i: usize = 1;
        while i < n
            invariant
                n == self.entries@.len(),
                1 <= i <= n,
                ps == pairs_of(self.entries@),
                out@ + enc_more(ps.skip(i as int)) == "{\"data\":["@ + enc_items(ps),
            decreases n - i,
        {
            let ghost prev = out@;
            push_char(&mut out, ',');
            let piece = encode_pair(&self.entries[i]);
            out.append(piece.as_str());
            proof {
                assert(pairs_of(self.entries@)[i as int] == (
                    self.entries@[i as int].key@,
                    self.entries@[i as int].value@,
                ));
                assert(ps.skip(i as int)[0] == ps[i as int]);
                assert(ps.skip(i as int).drop_first() =~= ps.skip(i as int + 1));
                assert(out@ =~= prev + (seq![','] + enc_pair(ps[i as int])));
                assert(out@ + enc_more(ps.skip(i as int + 1)) =~= prev + enc_more(ps.skip(i as int)));
            }
            i = i + 1;
        }
        proof {
            assert(ps.skip(n as int) =~= Seq::<(Seq<char>, Seq<char>)>::empty());
            assert(out@ =~= "{\"data\":["@ + enc_items(ps));
            assert(ps.drop_first() =~= ps.skip(1));
        }
        out.append("]}");
        proof {
            crate::store::lemma_view_def(self);
            assert(out@ =~= spec_encode(ps));
            lemma_snapshot_round_trip(ps);
        }
        out
    }

    /// Decode a snapshot text and merge its pairs into the store, in order,
    /// a later pair for a key overwriting an earlier one and every pair
    /// overwriting what the store held. A malformed text is refused and the
    /// store is left exactly as it was.
    pub fn load(&mut self, text: &str) -> (r: Result<(), SnapshotError>)
        requires
            old(self).wf(),
        ensures
            final(self).wf(),
            (match sp_snapshot(text@) {
                Some(ps) => r is Ok && final(self)@ == old(self)@.union_prefer_right(
                    map_of_pairs(ps),
                ),
                None => r is Err && final(self)@ == old(self)@,
            }),
    {
        let n = text.unicode_len();
        if n < 9 {
            return Err(SnapshotError {});
        }
        let head = text.substring_char(0, 9);
        if !str_eq(head, "{\"data\":[") {
            proof {
                assert(head@ =~= text@.take(9));
            }
            return Err(SnapshotError {});
        }
        proof {
            assert(text@.take(9) =~= head@);
        }
        let rest = text.substring_char(9, n);
        proof {
            assert(rest@ =~= text@.skip(9));
        }
        match dec_items(rest) {
            Some((es, tail)) => {
                let tn = tail.unicode_len();
                if tn == 1 && tail.get_char(0) == '}' {
                    proof {
                        assert(tail@ =~= seq!['}']);
                    }
                    let ghost ps = pairs_of(es@);
                    let ghost base = old(self)@;
                    let m = es.len();
                    let mut i: usize = 0;
                    while i < m
                        invariant
                            self.wf(),
                            m == es@.len(),
                            i <= m,
                            ps == pairs_of(es@),
                            self@ == base.union_prefer_right(map_of_pairs(ps.take(i as int))),
                        decreases m - i,
                    {
                        let key = es[i].key.clone();
                        let value = es[i].value.clone();
                        self.set(key, value);
                        proof {
                            assert(ps[i as int] == (es@[i as int].key@, es@[i as int].value@));
                            assert(ps.take(i as int + 1).drop_last() =~= ps.take(i as int));
                            assert(ps.take(i as int + 1).last() == ps[i as int]);
                            assert(base.union_prefer_right(map_of_pairs(ps.take(i as int))).insert(
                                ps[i as int].0,
                                ps[i as int].1,
                            ) =~= base.union_prefer_right(map_of_pairs(ps.take(i as int + 1))));
                        }
                        i = i + 1;
                    }
                    proof {
                        assert(ps.take(m as int) =~= ps);
                    }
                    Ok(())
                } else {
                    proof {
                        if tail@ == seq!['}'] {
                            assert(tail@.len() == 1);
                            assert(tail@[0] == '}');
                        }
                    }
                    Err(SnapshotError {})
                }
            },
            None => Err(SnapshotError {}),
        }
    }
}

} // verus!
