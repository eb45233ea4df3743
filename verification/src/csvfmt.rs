use vstd::prelude::*;

verus! {

use crate::textutil::push_char;

// ---------------------------------------------------------------------------
// The record grammar: semicolon-delimited fields, one record per line.
// A field holding a separator, a quote or a line break is written inside
// double quotes, with inner quotes doubled.
// ---------------------------------------------------------------------------

/// A field needs quoting when it holds a separator, a quote or a line
/// break.
pub open spec fn needs_quote(f: Seq<char>) -> bool {
    exists|i: int|
        0 <= i < f.len() && (#[trigger] f[i] == ';' || f[i] == '"' || f[i] == '\n' || f[i]
            == '\r')
}

/// The field text with every quote doubled.
pub open spec fn esc_quotes(f: Seq<char>) -> Seq<char>
    decreases f.len(),
{
    if f.len() == 0 {
        Seq::empty()
    } else if f[0] == '"' {
        seq!['"', '"'] + esc_quotes(f.drop_first())
    } else {
        seq![f[0]] + esc_quotes(f.drop_first())
    }
}

/// The encoding of one field: quoted and escaped when needed, plain
/// otherwise.
pub open spec fn enc_field(f: Seq<char>) -> Seq<char> {
    if needs_quote(f) {
        seq!['"'] + esc_quotes(f) + seq!['"']
    } else {
        f
    }
}

/// The encoding of one record: its fields joined by `;`, ended by a
/// line break.
pub open spec fn enc_record(fs: Seq<Seq<char>>) -> Seq<char>
    decreases fs.len(),
{
    if fs.len() == 0 {
        seq!['\n']
    } else if fs.len() == 1 {
        enc_field(fs[0]) + seq!['\n']
    } else {
        enc_field(fs[0]) + seq![';'] + enc_record(fs.drop_first())
    }
}

/// The encoding of a sequence of records.
pub open spec fn enc_rows(rs: Seq<Seq<Seq<char>>>) -> Seq<char>
    decreases rs.len(),
{
    if rs.len() == 0 {
        Seq::empty()
    } else {
        enc_record(rs[0]) + enc_rows(rs.drop_first())
    }
}

/// Appending one record to a row sequence appends its encoding.
pub proof fn lemma_enc_rows_push(rs: Seq<Seq<Seq<char>>>, r: Seq<Seq<char>>)
    ensures
        enc_rows(rs.push(r)) == enc_rows(rs) + enc_record(r),
    decreases rs.len(),
{
    let g = rs.push(r);
    if rs.len() == 0 {
        assert(g[0] == r);
        assert(g.drop_first() =~= Seq::<Seq<Seq<char>>>::empty());
        assert(enc_rows(g.drop_first()) == Seq::<char>::empty());
        assert(enc_rows(g) =~= enc_rows(rs) + enc_record(r));
    } else {
        assert(g[0] == rs[0]);
        assert(g.drop_first() =~= rs.drop_first().push(r));
        lemma_enc_rows_push(rs.drop_first(), r);
        assert(enc_rows(g) == enc_record(rs[0]) + enc_rows(g.drop_first()));
        assert(enc_rows(g) =~= enc_rows(rs) + enc_record(r));
    }
}

/// The character sequences of a sequence of strings.
pub open spec fn views_of(v: Seq<String>) -> Seq<Seq<char>> {
    Seq::new(v.len(), |i: int| v[i]@)
}

/// The character sequences of parsed rows.
pub open spec fn rows_views(v: Seq<Vec<String>>) -> Seq<Seq<Seq<char>>> {
    Seq::new(v.len(), |i: int| views_of(v[i]@))
}

// ---------------------------------------------------------------------------
// The parser, one field at a time. `pf` reads one field from position
// `i`: outside quotes it stops at a separator or line break; a quote
// opens quoted reading, where a doubled quote is a literal quote and a
// single one closes. It returns the field text and the stop position.
// ---------------------------------------------------------------------------

/// Reads one field from position `i` with accumulated text `acc`,
/// inside quotes when `q`; yields the field and the stop position.
pub open spec fn pf(s: Seq<char>, i: int, acc: Seq<char>, q: bool) -> (Seq<char>, int)
    decreases s.len() - i,
{
    if i < 0 || i >= s.len() {
        (acc, i)
    } else if !q {
        if s[i] == ';' || s[i] == '\n' {
            (acc, i)
        } else if s[i] == '"' {
            pf(s, i + 1, acc, true)
        } else {
            pf(s, i + 1, acc.push(s[i]), false)
        }
    } else {
        if s[i] == '"' {
            if i + 1 < s.len() && s[i + 1] == '"' {
                pf(s, i + 2, acc.push('"'), true)
            } else {
                pf(s, i + 1, acc, false)
            }
        } else {
            pf(s, i + 1, acc.push(s[i]), true)
        }
    }
}

/// A field read stops between `i` and the end, at a separator, a line
/// break, or the end of the text.
proof fn lemma_pf_props(s: Seq<char>, i: int, acc: Seq<char>, q: bool)
    requires
        0 <= i <= s.len(),
    ensures
        i <= pf(s, i, acc, q).1 <= s.len(),
        pf(s, i, acc, q).1 == s.len() || s[pf(s, i, acc, q).1] == ';' || s[pf(
            s,
            i,
            acc,
            q,
        ).1] == '\n',
    decreases s.len() - i,
{
    if i < s.len() {
        if !q {
            if s[i] == ';' || s[i] == '\n' {
            } else if s[i] == '"' {
                lemma_pf_props(s, i + 1, acc, true);
            } else {
                lemma_pf_props(s, i + 1, acc.push(s[i]), false);
            }
        } else {
            if s[i] == '"' {
                if i + 1 < s.len() && s[i + 1] == '"' {
                    lemma_pf_props(s, i + 2, acc.push('"'), true);
                } else {
                    lemma_pf_props(s, i + 1, acc, false);
                }
            } else {
                lemma_pf_props(s, i + 1, acc.push(s[i]), true);
            }
        }
    }
}

#[via_fn]
proof fn p_rec_dec(s: Seq<char>, i: int) {
    if 0 <= i <= s.len() {
        lemma_pf_props(s, i, Seq::empty(), false);
    }
}

/// Reads one record from position `i`: fields separated by `;` up to
/// a line break or the end; yields the fields and the position after.
pub open spec fn p_rec(s: Seq<char>, i: int) -> (Seq<Seq<char>>, int)
    decreases s.len() - i,
        via p_rec_dec
{
    let fj = pf(s, i, Seq::empty(), false);
    if fj.1 >= s.len() {
        (seq![fj.0], s.len() as int)
    } else if s[fj.1] == ';' {
        let rk = p_rec(s, fj.1 + 1);
        (seq![fj.0] + rk.0, rk.1)
    } else {
        (seq![fj.0], fj.1 + 1)
    }
}

/// A record read moves strictly forward and never past the end, and
/// yields at least one field.
proof fn lemma_p_rec_props(s: Seq<char>, i: int)
    requires
        0 <= i <= s.len(),
    ensures
        p_rec(s, i).1 <= s.len(),
        i < s.len() ==> p_rec(s, i).1 > i,
        p_rec(s, i).0.len() >= 1,
    decreases s.len() - i,
{
    lemma_pf_props(s, i, Seq::empty(), false);
    let fj = pf(s, i, Seq::empty(), false);
    if fj.1 < s.len() && s[fj.1] == ';' {
        lemma_p_rec_props(s, fj.1 + 1);
    }
}

#[via_fn]
proof fn p_rows_dec(s: Seq<char>, i: int) {
    if 0 <= i < s.len() {
        lemma_p_rec_props(s, i);
    }
}

/// Reads all records from position `i`. A record holding exactly one
/// empty field is a blank line and yields no row.
pub open spec fn p_rows(s: Seq<char>, i: int) -> Seq<Seq<Seq<char>>>
    decreases s.len() - i,
        via p_rows_dec
{
    if i < 0 || i >= s.len() {
        Seq::empty()
    } else {
        let rk = p_rec(s, i);
        let rest = p_rows(s, rk.1);
        if rk.0 == seq![Seq::<char>::empty()] {
            rest
        } else {
            seq![rk.0] + rest
        }
    }
}

// ---------------------------------------------------------------------------
// Executable encoder
// ---------------------------------------------------------------------------

/// Whether the field must be written inside quotes.
fn field_needs_quote(f: &str) -> (r: bool)
    ensures
        r == needs_quote(f@),
{
    let n = f.unicode_len();
    let mut i: usize = 0;
    let mut found: bool = false;
    while i < n
        invariant
            0 <= i <= n,
            n == f@.len(),
            found == exists|j: int|
                0 <= j < i && (#[trigger] f@[j] == ';' || f@[j] == '"' || f@[j] == '\n'
                    || f@[j] == '\r'),
        decreases n - i,
    {
        let c = f.get_char(i);
        if c == ';' || c == '"' || c == '\n' || c == '\r' {
            found = true;
        }
        i = i + 1;
    }
    found
}

/// Appends the encoding of one field.
fn encode_field(out: &mut String, f: &str)
    ensures
        final(out)@ == old(out)@ + enc_field(f@),
{
    if !field_needs_quote(f) {
        out.append(f);
    } else {
        push_char(out, '"');
        let n = f.unicode_len();
        let mut i: usize = 0;
        while i < n
            invariant
                0 <= i <= n,
                n == f@.len(),
                out@ == old(out)@ + seq!['"'] + esc_quotes(f@.take(i as int)),
                needs_quote(f@),
            decreases n - i,
        {
            let c = f.get_char(i);
            proof {
                lemma_esc_push(f@.take(i as int), f@[i as int]);
                assert(f@.take(i as int + 1) == f@.take(i as int).push(f@[i as int]));
            }
            if c == '"' {
                push_char(out, '"');
                push_char(out, '"');
                proof {
                    assert(out@ =~= old(out)@ + seq!['"'] + esc_quotes(f@.take(i as int + 1)));
                }
            } else {
                push_char(out, c);
                proof {
                    assert(out@ =~= old(out)@ + seq!['"'] + esc_quotes(f@.take(i as int + 1)));
                }
            }
            i = i + 1;
        }
        push_char(out, '"');
        proof {
            assert(f@.take(n as int) == f@);
            assert(out@ =~= old(out)@ + enc_field(f@));
        }
    }
}

/// Appending one character to a field appends its escape.
proof fn lemma_esc_push(f: Seq<char>, c: char)
    ensures
        esc_quotes(f.push(c)) == esc_quotes(f) + (if c == '"' {
            seq!['"', '"']
        } else {
            seq![c]
        }),
    decreases f.len(),
{
    let g = f.push(c);
    if f.len() == 0 {
        assert(g.len() == 1);
        assert(g[0] == c);
        assert(g.drop_first() =~= Seq::<char>::empty());
        assert(esc_quotes(g.drop_first()) == Seq::<char>::empty());
        if c == '"' {
            assert(esc_quotes(g) == seq!['"', '"'] + esc_quotes(g.drop_first()));
            assert(esc_quotes(g) =~= esc_quotes(f) + seq!['"', '"']);
        } else {
            assert(esc_quotes(g) == seq![c] + esc_quotes(g.drop_first()));
            assert(esc_quotes(g) =~= esc_quotes(f) + seq![c]);
        }
    } else {
        assert(g[0] == f[0]);
        assert(g.drop_first() =~= f.drop_first().push(c));
        lemma_esc_push(f.drop_first(), c);
        let suffix = if c == '"' {
            seq!['"', '"']
        } else {
            seq![c]
        };
        assert(esc_quotes(g.drop_first()) == esc_quotes(f.drop_first()) + suffix);
        if f[0] == '"' {
            assert(esc_quotes(g) == seq!['"', '"'] + esc_quotes(g.drop_first()));
            assert(esc_quotes(f) == seq!['"', '"'] + esc_quotes(f.drop_first()));
            assert(esc_quotes(g) =~= esc_quotes(f) + suffix);
        } else {
            assert(esc_quotes(g) == seq![f[0]] + esc_quotes(g.drop_first()));
            assert(esc_quotes(f) == seq![f[0]] + esc_quotes(f.drop_first()));
            assert(esc_quotes(g) =~= esc_quotes(f) + suffix);
        }
    }
}

/// Appends the encoding of the fields from `k` on, ended by a line
/// break.
fn encode_row_from(out: &mut String, fs: &Vec<String>, k: usize)
    requires
        k < fs@.len(),
    ensures
        final(out)@ == old(out)@ + enc_record(views_of(fs@).skip(k as int)),
    decreases fs@.len() - k,
{
    let ghost tail = views_of(fs@).skip(k as int);
    proof {
        assert(tail[0] == fs@[k as int]@);
    }
    let len = fs.len();
    encode_field(out, fs[k].as_str());
    if k + 1 == len {
        push_char(out, '\n');
        proof {
            assert(tail.len() == 1);
            assert(out@ =~= old(out)@ + enc_record(tail));
        }
    } else {
        push_char(out, ';');
        encode_row_from(out, fs, k + 1);
        proof {
            assert(tail.drop_first() =~= views_of(fs@).skip(k as int + 1));
            assert(out@ =~= old(out)@ + enc_record(tail));
        }
    }
}

/// Appends the encoding of one record.
pub fn encode_row(out: &mut String, fs: &Vec<String>)
    requires
        fs@.len() >= 1,
    ensures
        final(out)@ == old(out)@ + enc_record(views_of(fs@)),
{
    encode_row_from(out, fs, 0);
    proof {
        assert(views_of(fs@).skip(0) == views_of(fs@));
    }
}

// ---------------------------------------------------------------------------
// Executable parser
// ---------------------------------------------------------------------------

/// Whether field reading stops at position `j`.
fn at_field_end(s: &str, j: usize, q: bool) -> (r: bool)
    requires
        j <= s@.len(),
    ensures
        r == (j == s@.len() || (!q && (s@[j as int] == ';' || s@[j as int] == '\n'))),
{
    if j == s.unicode_len() {
        true
    } else if q {
        false
    } else {
        let c = s.get_char(j);
        c == ';' || c == '\n'
    }
}

/// Reads one field from position `i`, as `pf` says.
fn parse_field_at(s: &str, i: usize) -> (r: (String, usize))
    requires
        i <= s@.len(),
    ensures
        r.0@ == pf(s@, i as int, Seq::empty(), false).0,
        r.1 == pf(s@, i as int, Seq::empty(), false).1,
        i <= r.1 <= s@.len(),
{
    let n = s.unicode_len();
    let mut j: usize = i;
    let mut acc = String::new();
    let mut q: bool = false;
    while !at_field_end(s, j, q)
        invariant
            i <= j <= n,
            n == s@.len(),
            pf(s@, i as int, Seq::empty(), false) == pf(s@, j as int, acc@, q),
        decreases n - j,
    {
        let c = s.get_char(j);
        if !q {
            if c == '"' {
                q = true;
                j = j + 1;
            } else {
                push_char(&mut acc, c);
                j = j + 1;
            }
        } else {
            if c == '"' {
                if j + 1 < n && s.get_char(j + 1) == '"' {
                    push_char(&mut acc, '"');
                    j = j + 2;
                } else {
                    q = false;
                    j = j + 1;
                }
            } else {
                push_char(&mut acc, c);
                j = j + 1;
            }
        }
    }
    proof {
        assert(pf(s@, j as int, acc@, q) == (acc@, j as int));
    }
    (acc, j)
}

/// Reads one record from position `i`, as `p_rec` says.
fn parse_record_at(s: &str, i: usize) -> (r: (Vec<String>, usize))
    requires
        i <= s@.len(),
    ensures
        views_of(r.0@) == p_rec(s@, i as int).0,
        r.1 == p_rec(s@, i as int).1,
        r.1 <= s@.len(),
{
    let n = s.unicode_len();
    let mut fields: Vec<String> = Vec::new();
    let mut cur: usize = i;
    let mut done: bool = false;
    let mut endpos: usize = 0;
    while !done
        invariant
            n == s@.len(),
            !done ==> cur <= n,
            !done ==> p_rec(s@, i as int).0 == views_of(fields@) + p_rec(s@, cur as int).0,
            !done ==> p_rec(s@, i as int).1 == p_rec(s@, cur as int).1,
            done ==> views_of(fields@) == p_rec(s@, i as int).0,
            done ==> endpos == p_rec(s@, i as int).1 && endpos <= n,
        decreases n - cur, (if done {
            0int
        } else {
            1int
        }),
    {
        let (f, j) = parse_field_at(s, cur);
        let ghost pre = fields@;
        fields.push(f);
        proof {
            assert(views_of(fields@) =~= views_of(pre).push(f@));
        }
        if j >= n {
            done = true;
            endpos = n;
            proof {
                assert(p_rec(s@, cur as int).0 == seq![f@]);
                assert(p_rec(s@, cur as int).1 == n as int);
                assert(views_of(fields@) =~= views_of(pre) + seq![f@]);
            }
        } else {
            let c = s.get_char(j);
            if c == ';' {
                proof {
                    assert(p_rec(s@, cur as int).0 == seq![f@] + p_rec(s@, j as int + 1).0);
                    assert(p_rec(s@, cur as int).1 == p_rec(s@, j as int + 1).1);
                    assert(views_of(pre) + p_rec(s@, cur as int).0 =~= views_of(fields@) + p_rec(
                        s@,
                        j as int + 1,
                    ).0);
                }
                cur = j + 1;
            } else {
                done = true;
                endpos = j + 1;
                proof {
                    assert(p_rec(s@, cur as int).0 == seq![f@]);
                    assert(p_rec(s@, cur as int).1 == j + 1);
                    assert(views_of(fields@) =~= views_of(pre) + seq![f@]);
                }
            }
        }
    }
    (fields, endpos)
}

/// Reads every record of `s`, dropping blank lines, as `p_rows` says.
pub fn parse_rows(s: &str) -> (r: Vec<Vec<String>>)
    ensures
        rows_views(r@) == p_rows(s@, 0),
{
    let n = s.unicode_len();
    let mut rows: Vec<Vec<String>> = Vec::new();
    let mut cur: usize = 0;
    while cur < n
        invariant
            0 <= cur <= n,
            n == s@.len(),
            p_rows(s@, 0) == rows_views(rows@) + p_rows(s@, cur as int),
        decreases n - cur,
    {
        proof {
            lemma_p_rec_props(s@, cur as int);
        }
        let (rec, j) = parse_record_at(s, cur);
        let ghost pre = rows@;
        let is_blank = rec.len() == 1 && rec[0].as_str().is_empty();
        proof {
            if rec@.len() == 1 {
                assert(views_of(rec@)[0] == rec@[0]@);
            }
            if is_blank {
                assert(rec@[0]@ =~= Seq::<char>::empty());
                assert(views_of(rec@) =~= seq![Seq::<char>::empty()]);
            } else {
                if views_of(rec@) == seq![Seq::<char>::empty()] {
                    assert(views_of(rec@).len() == 1);
                    assert(rec@.len() == 1);
                    assert(views_of(rec@)[0] == Seq::<char>::empty());
                    assert(rec@[0]@ == Seq::<char>::empty());
                    assert(false);
                }
            }
        }
        if !is_blank {
            rows.push(rec);
            proof {
                assert(rows_views(rows@) =~= rows_views(pre).push(views_of(rec@)));
                assert(rows_views(pre) + p_rows(s@, cur as int) =~= rows_views(rows@) + p_rows(
                    s@,
                    j as int,
                ));
            }
        } else {
            proof {
                assert(p_rows(s@, cur as int) == p_rows(s@, j as int));
            }
        }
        cur = j;
    }
    proof {
        assert(p_rows(s@, cur as int) =~= Seq::<Seq<Seq<char>>>::empty());
        assert(p_rows(s@, 0) =~= rows_views(rows@));
    }
    rows
}

// ---------------------------------------------------------------------------
// Round trip: parsing an encoded table yields the rows back.
// ---------------------------------------------------------------------------

proof fn lemma_pf_unquoted(s: Seq<char>, i: int, m: int, acc: Seq<char>)
    requires
        0 <= i <= m <= s.len(),
        forall|k: int| i <= k < m ==> #[trigger] s[k] != ';' && s[k] != '\n' && s[k] != '"',
        m == s.len() || s[m] == ';' || s[m] == '\n',
    ensures
        pf(s, i, acc, false) == (acc + s.subrange(i, m), m),
    decreases m - i,
{
    if i == m {
        assert(acc + s.subrange(i, m) =~= acc);
    } else {
        lemma_pf_unquoted(s, i + 1, m, acc.push(s[i]));
        assert(acc.push(s[i]) + s.subrange(i + 1, m) =~= acc + s.subrange(i, m));
    }
}

proof fn lemma_pf_quoted(s: Seq<char>, j: int, acc: Seq<char>, f: Seq<char>)
    requires
        0 <= j,
        j + esc_quotes(f).len() + 1 <= s.len(),
        s.subrange(j, j + esc_quotes(f).len()) == esc_quotes(f),
        s[j + esc_quotes(f).len()] == '"',
        ({
            let a = j + esc_quotes(f).len() + 1;
            a == s.len() || s[a] == ';' || s[a] == '\n'
        }),
    ensures
        pf(s, j, acc, true) == (acc + f, j + esc_quotes(f).len() + 1),
    decreases f.len(),
{
    let e = esc_quotes(f);
    let a = j + e.len() + 1;
    assert forall|k: int| 0 <= k < e.len() implies e[k] == s[j + k] by {
        assert(s.subrange(j, j + e.len())[k] == s[j + k]);
    }
    if f.len() == 0 {
        assert(e.len() == 0);
        assert(s[j] == '"');
        if j + 1 < s.len() && s[j + 1] == '"' {
            assert(s[a] == '"');
            assert(false);
        }
        assert(pf(s, j, acc, true) == pf(s, j + 1, acc, false));
        assert(pf(s, j + 1, acc, false) == (acc, j + 1));
        assert(acc + f =~= acc);
    } else if f[0] == '"' {
        let ft = f.drop_first();
        assert(e == seq!['"', '"'] + esc_quotes(ft));
        assert(e[0] == s[j]);
        assert(e[1] == s[j + 1]);
        assert(s[j] == '"');
        assert(s[j + 1] == '"');
        assert(j + 1 < s.len());
        assert forall|k: int| 0 <= k < esc_quotes(ft).len() implies s.subrange(
            j + 2,
            j + 2 + esc_quotes(ft).len(),
        )[k] == esc_quotes(ft)[k] by {
            assert(e[2 + k] == s[j + (2 + k)]);
        }
        assert(s.subrange(j + 2, j + 2 + esc_quotes(ft).len()) =~= esc_quotes(ft));
        lemma_pf_quoted(s, j + 2, acc.push('"'), ft);
        assert(acc.push('"') + ft =~= acc + f);
    } else {
        let ft = f.drop_first();
        assert(e == seq![f[0]] + esc_quotes(ft));
        assert(e[0] == s[j]);
        assert(s[j] == f[0]);
        assert(s[j] != '"');
        assert forall|k: int| 0 <= k < esc_quotes(ft).len() implies s.subrange(
            j + 1,
            j + 1 + esc_quotes(ft).len(),
        )[k] == esc_quotes(ft)[k] by {
            assert(e[1 + k] == s[j + (1 + k)]);
        }
        assert(s.subrange(j + 1, j + 1 + esc_quotes(ft).len()) =~= esc_quotes(ft));
        lemma_pf_quoted(s, j + 1, acc.push(f[0]), ft);
        assert(acc.push(f[0]) + ft =~= acc + f);
    }
}

proof fn lemma_pf_enc_field_at(s: Seq<char>, i: int, f: Seq<char>)
    requires
        0 <= i,
        i + enc_field(f).len() <= s.len(),
        s.subrange(i, i + enc_field(f).len()) == enc_field(f),
        ({
            let a = i + enc_field(f).len();
            a == s.len() || s[a] == ';' || s[a] == '\n'
        }),
    ensures
        pf(s, i, Seq::empty(), false) == (f, i + enc_field(f).len()),
{
    let ef = enc_field(f);
    let a = i + ef.len();
    assert forall|k: int| 0 <= k < ef.len() implies ef[k] == s[i + k] by {
        assert(s.subrange(i, i + ef.len())[k] == s[i + k]);
    }
    if needs_quote(f) {
        let e = esc_quotes(f);
        assert(ef == seq!['"'] + e + seq!['"']);
        assert(ef[0] == s[i]);
        assert(s[i] == '"');
        assert(i < s.len());
        assert(pf(s, i, Seq::empty(), false) == pf(s, i + 1, Seq::empty(), true));
        assert forall|k: int| 0 <= k < e.len() implies s.subrange(i + 1, i + 1 + e.len())[k]
            == e[k] by {
            assert(ef[k + 1] == s[i + k + 1]);
        }
        assert(s.subrange(i + 1, i + 1 + e.len()) =~= e);
        assert(ef[e.len() as int + 1] == s[i + e.len() + 1]);
        assert(s[i + 1 + e.len()] == '"');
        lemma_pf_quoted(s, i + 1, Seq::empty(), f);
        assert(Seq::empty() + f =~= f);
    } else {
        assert forall|k: int| i <= k < a implies s[k] != ';' && s[k] != '\n' && s[k] != '"' by {
            assert(s[k] == f[k - i]);
            if f[k - i] == ';' || f[k - i] == '"' || f[k - i] == '\n' {
                assert(needs_quote(f));
            }
        }
        lemma_pf_unquoted(s, i, a, Seq::empty());
        assert(Seq::empty() + s.subrange(i, a) =~= f);
    }
}

proof fn lemma_enc_record_len(fs: Seq<Seq<char>>)
    ensures
        enc_record(fs).len() >= 1,
    decreases fs.len(),
{
    if fs.len() > 1 {
        lemma_enc_record_len(fs.drop_first());
    }
}

/// Parsing an encoded record that sits at `i` yields its fields and
/// stops just past its line break.
proof fn lemma_p_rec_enc(s: Seq<char>, i: int, fs: Seq<Seq<char>>)
    requires
        0 <= i,
        fs.len() >= 1,
        i + enc_record(fs).len() <= s.len(),
        s.subrange(i, i + enc_record(fs).len()) == enc_record(fs),
    ensures
        p_rec(s, i) == (fs, i + enc_record(fs).len()),
    decreases fs.len(),
{
    let er = enc_record(fs);
    assert forall|k: int| 0 <= k < er.len() implies er[k] == s[i + k] by {
        assert(s.subrange(i, i + er.len())[k] == s[i + k]);
    }
    let f0 = fs[0];
    let ef = enc_field(f0);
    if fs.len() == 1 {
        assert(er == enc_field(f0) + seq!['\n']);
        assert forall|k: int| 0 <= k < ef.len() implies s.subrange(i, i + ef.len())[k]
            == ef[k] by {
            assert(er[k] == s[i + k]);
        }
        assert(s.subrange(i, i + ef.len()) =~= ef);
        assert(er[ef.len() as int] == s[i + ef.len()]);
        assert(s[i + ef.len()] == '\n');
        lemma_pf_enc_field_at(s, i, f0);
        assert(seq![f0] =~= fs);
    } else {
        let ft = fs.drop_first();
        assert(er == enc_field(f0) + seq![';'] + enc_record(ft));
        assert forall|k: int| 0 <= k < ef.len() implies s.subrange(i, i + ef.len())[k]
            == ef[k] by {
            assert(er[k] == s[i + k]);
        }
        assert(s.subrange(i, i + ef.len()) =~= ef);
        assert(er[ef.len() as int] == s[i + ef.len()]);
        assert(s[i + ef.len()] == ';');
        lemma_pf_enc_field_at(s, i, f0);
        let i2 = i + ef.len() + 1;
        assert forall|k: int| 0 <= k < enc_record(ft).len() implies s.subrange(
            i2,
            i2 + enc_record(ft).len(),
        )[k] == enc_record(ft)[k] by {
            assert(er[ef.len() as int + 1 + k] == s[i + (ef.len() + 1 + k)]);
        }
        assert(s.subrange(i2, i2 + enc_record(ft).len()) =~= enc_record(ft));
        lemma_p_rec_enc(s, i2, ft);
        assert(seq![f0] + ft =~= fs);
    }
}

/// Parsing an encoded table from `i` to the end yields the rows back,
/// as long as no row is a single empty field (a blank line).
pub proof fn lemma_p_rows_enc(s: Seq<char>, i: int, rs: Seq<Seq<Seq<char>>>)
    requires
        0 <= i,
        i + enc_rows(rs).len() == s.len(),
        s.subrange(i, s.len() as int) == enc_rows(rs),
        forall|k: int| 0 <= k < rs.len() ==> (#[trigger] rs[k]).len() >= 1,
        forall|k: int| 0 <= k < rs.len() ==> #[trigger] rs[k] != seq![Seq::<char>::empty()],
    ensures
        p_rows(s, i) == rs,
    decreases rs.len(),
{
    if rs.len() == 0 {
        assert(i == s.len());
        assert(p_rows(s, i) =~= rs);
    } else {
        let r0 = rs[0];
        let er = enc_record(r0);
        let rest = enc_rows(rs.drop_first());
        assert(enc_rows(rs) == er + rest);
        assert forall|k: int| 0 <= k < enc_rows(rs).len() implies enc_rows(rs)[k] == s[i + k] by {
            assert(s.subrange(i, s.len() as int)[k] == s[i + k]);
        }
        lemma_enc_record_len(r0);
        assert forall|k: int| 0 <= k < er.len() implies s.subrange(i, i + er.len())[k]
            == er[k] by {
            assert(enc_rows(rs)[k] == s[i + k]);
        }
        assert(s.subrange(i, i + er.len()) =~= er);
        lemma_p_rec_enc(s, i, r0);
        assert(i < s.len());
        let i2 = i + er.len();
        assert forall|k: int| 0 <= k < rest.len() implies s.subrange(i2, s.len() as int)[k]
            == rest[k] by {
            assert(enc_rows(rs)[er.len() as int + k] == s[i + (er.len() + k)]);
        }
        assert(s.subrange(i2, s.len() as int) =~= rest);
        lemma_p_rows_enc(s, i2, rs.drop_first());
        assert(p_rows(s, i) =~= seq![r0] + rs.drop_first());
        assert(seq![r0] + rs.drop_first() =~= rs);
    }
}

} // verus!
