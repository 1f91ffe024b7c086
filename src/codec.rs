//! The task file's text: one object whose only field, `tasks`, is the array
//! of task objects. The encoder writes one canonical form and the decoder
//! accepts exactly the texts that the encoder writes.
use vstd::prelude::*;
use crate::model::{tasks_view, List, Task, TaskV};
use crate::scalar::{
    digits, esc, is_digit, lemma_lit_at, lemma_lit_concat, lemma_num_complete, lemma_num_sound,
    lemma_str_complete, lemma_str_sound, lit, parse_num, parse_str_body, quoted, read_lit,
    read_num, read_str_body, write_all, write_digits, write_quoted,
};
use crate::text::{chars_of, string_of};

verus! {

pub open spec fn key_open() -> Seq<char> {
    seq!['{', '"', 't', 'a', 's', 'k', 's', '"', ':', '[']
}

pub open spec fn key_name() -> Seq<char> {
    seq!['{', '"', 'n', 'a', 'm', 'e', '"', ':']
}

pub open spec fn key_author() -> Seq<char> {
    seq![',', '"', 'a', 'u', 't', 'h', 'o', 'r', '"', ':']
}

pub open spec fn key_creation() -> Seq<char> {
    seq![',', '"', 'c', 'r', 'e', 'a', 't', 'i', 'o', 'n', '"', ':']
}

pub open spec fn key_completed() -> Seq<char> {
    seq![',', '"', 'c', 'o', 'm', 'p', 'l', 'e', 't', 'e', 'd', '"', ':']
}

/// The `author` member: left out when there is no author.
pub open spec fn author_part(a: Option<Seq<char>>) -> Seq<char> {
    match a {
        Some(a) => key_author() + quoted(a),
        None => Seq::empty(),
    }
}

/// The `completed` member: left out while the task is open.
pub open spec fn completed_part(c: Option<u64>) -> Seq<char> {
    match c {
        Some(c) => key_completed() + digits(c as nat),
        None => Seq::empty(),
    }
}

/// The text of one task object.
pub open spec fn enc_task(t: TaskV) -> Seq<char> {
    key_name() + (quoted(t.name) + (author_part(t.author) + (key_creation() + (digits(
        t.creation as nat,
    ) + (completed_part(t.completed) + seq!['}'])))))
}

/// Each task after the first, preceded by a comma.
pub open spec fn enc_tail(l: Seq<TaskV>) -> Seq<char>
    decreases l.len(),
{
    if l.len() == 0 {
        Seq::empty()
    } else {
        seq![','] + (enc_task(l[0]) + enc_tail(l.drop_first()))
    }
}

/// The elements of the `tasks` array, separated by commas.
pub open spec fn enc_items(l: Seq<TaskV>) -> Seq<char> {
    if l.len() == 0 {
        Seq::empty()
    } else {
        enc_task(l[0]) + enc_tail(l.drop_first())
    }
}

/// The text of a whole list.
pub open spec fn encode_list(l: Seq<TaskV>) -> Seq<char> {
    key_open() + (enc_items(l) + seq![']', '}'])
}

pub open spec fn parse_author(s: Seq<char>, i: int) -> Option<(Option<Seq<char>>, int)> {
    if lit(s, i, key_author()) {
        if i + 10 < s.len() && s[i + 10] == '"' {
            match parse_str_body(s, i + 11) {
                Some((a, j)) => Some((Some(a), j)),
                None => None,
            }
        } else {
            None
        }
    } else {
        Some((None, i))
    }
}

pub open spec fn parse_completed(s: Seq<char>, i: int) -> Option<(Option<u64>, int)> {
    if lit(s, i, key_completed()) {
        match parse_num(s, i + 13) {
            Some((c, j)) => Some((Some(c), j)),
            None => None,
        }
    } else {
        Some((None, i))
    }
}

pub open spec fn parse_task(s: Seq<char>, i: int) -> Option<(TaskV, int)> {
    if lit(s, i, key_name()) && i + 8 < s.len() && s[i + 8] == '"' {
        match parse_str_body(s, i + 9) {
            Some((name, i2)) => match parse_author(s, i2) {
                Some((author, i3)) => if lit(s, i3, key_creation()) {
                    match parse_num(s, i3 + 12) {
                        Some((creation, i4)) => match parse_completed(s, i4) {
                            Some((completed, i5)) => if 0 <= i5 < s.len() && s[i5] == '}' {
                                Some((TaskV { name, author, creation, completed }, i5 + 1))
                            } else {
                                None
                            },
                            None => None,
                        },
                        None => None,
                    }
                } else {
                    None
                },
                None => None,
            },
            None => None,
        }
    } else {
        None
    }
}

/// Reads `(',' task)* ']'` from `i`, appending the tasks to `acc`.
pub open spec fn parse_items(s: Seq<char>, i: int, acc: Seq<TaskV>) -> Option<(Seq<TaskV>, int)>
    decreases s.len() - i,
{
    if i < 0 || i >= s.len() {
        None
    } else if s[i] == ']' {
        Some((acc, i + 1))
    } else if s[i] == ',' {
        match parse_task(s, i + 1) {
            Some((t, j)) => if i < j <= s.len() {
                parse_items(s, j, acc.push(t))
            } else {
                None
            },
            None => None,
        }
    } else {
        None
    }
}

/// The reading of a whole text: the tasks, or `None` where the text is not
/// one that `encode_list` writes.
#[verifier::opaque]
pub open spec fn parse_list(s: Seq<char>) -> Option<Seq<TaskV>> {
    if !lit(s, 0, key_open()) || s.len() <= 10 {
        None
    } else {
        let r = if s[10] == ']' {
            Some((Seq::<TaskV>::empty(), 11int))
        } else {
            match parse_task(s, 10) {
                Some((t, j)) => if 10 < j <= s.len() {
                    parse_items(s, j, seq![t])
                } else {
                    None
                },
                None => None,
            }
        };
        match r {
            Some((l, k)) => if k + 1 == s.len() && s[k] == '}' {
                Some(l)
            } else {
                None
            },
            None => None,
        }
    }
}


proof fn lemma_lit_one(s: Seq<char>, i: int, c: char)
    requires
        0 <= i < s.len(),
        s[i] == c,
    ensures
        lit(s, i, seq![c]),
{
    assert(s.subrange(i, i + 1) =~= seq![c]);
}

proof fn lemma_digits_then(s: Seq<char>, i: int, n: u64, rest: Seq<char>)
    requires
        lit(s, i, digits(n as nat) + rest),
        rest.len() > 0,
        !is_digit(rest[0]),
    ensures
        parse_num(s, i) == Some((n, i + digits(n as nat).len())),
{
    lemma_lit_concat(s, i, digits(n as nat), rest);
    lemma_lit_at(s, i + digits(n as nat).len(), rest, 0);
    lemma_num_complete(s, i, n);
}

proof fn lemma_task_complete(s: Seq<char>, i: int, t: TaskV)
    requires
        lit(s, i, enc_task(t)),
    ensures
        parse_task(s, i) == Some((t, i + enc_task(t).len())),
{
    let q = quoted(t.name);
    let ap = author_part(t.author);
    let dg = digits(t.creation as nat);
    let cp = completed_part(t.completed);
    let r5 = cp + seq!['}'];
    let r4 = dg + r5;
    let r3 = key_creation() + r4;
    let r2 = ap + r3;
    let r1 = q + r2;
    lemma_lit_concat(s, i, key_name(), r1);
    let i1 = i + 8;
    lemma_lit_concat(s, i1, q, r2);
    lemma_lit_concat(s, i1, seq!['"'], esc(t.name) + seq!['"']);
    lemma_lit_at(s, i1, q, 0);
    lemma_str_complete(s, i1 + 1, t.name);
    let i2 = i1 + q.len();
    lemma_lit_concat(s, i2, ap, r3);
    let i3 = i2 + ap.len();
    lemma_lit_concat(s, i3, key_creation(), r4);
    match t.author {
        Some(a) => {
            lemma_lit_concat(s, i2, key_author(), quoted(a));
            lemma_lit_concat(s, i2 + 10, seq!['"'], esc(a) + seq!['"']);
            lemma_lit_at(s, i2 + 10, quoted(a), 0);
            lemma_str_complete(s, i2 + 11, a);
        },
        None => {
            assert(ap.len() == 0);
            lemma_lit_at(s, i3, key_creation(), 2);
            if lit(s, i2, key_author()) {
                lemma_lit_at(s, i2, key_author(), 2);
            }
        },
    }
    assert(parse_author(s, i2) == Some((t.author, i3)));
    let i4 = i3 + 12;
    assert(r5[0] == ',' || r5[0] == '}');
    lemma_digits_then(s, i4, t.creation, r5);
    lemma_lit_concat(s, i4, dg, r5);
    let i5 = i4 + dg.len();
    lemma_lit_concat(s, i5, cp, seq!['}']);
    let i6 = i5 + cp.len();
    lemma_lit_at(s, i6, seq!['}'], 0);
    match t.completed {
        Some(c) => {
            assert((key_completed() + digits(c as nat)) + seq!['}'] =~= key_completed() + (digits(
                c as nat,
            ) + seq!['}']));
            lemma_lit_concat(s, i5, key_completed(), digits(c as nat) + seq!['}']);
            lemma_digits_then(s, i5 + 13, c, seq!['}']);
        },
        None => {
            if lit(s, i5, key_completed()) {
                lemma_lit_at(s, i5, key_completed(), 0);
            }
        },
    }
    assert(parse_completed(s, i5) == Some((t.completed, i6)));
}

proof fn lemma_task_sound(s: Seq<char>, i: int)
    requires
        parse_task(s, i) is Some,
    ensures
        ({
            let (t, j) = parse_task(s, i).unwrap();
            &&& i < j <= s.len()
            &&& j == i + enc_task(t).len()
            &&& lit(s, i, enc_task(t))
        }),
{
    let (t, j) = parse_task(s, i).unwrap();
    let q = quoted(t.name);
    let ap = author_part(t.author);
    let dg = digits(t.creation as nat);
    let cp = completed_part(t.completed);
    let r5 = cp + seq!['}'];
    let r4 = dg + r5;
    let r3 = key_creation() + r4;
    let r2 = ap + r3;
    let r1 = q + r2;
    let i1 = i + 8;
    lemma_str_sound(s, i1 + 1);
    let i2 = parse_str_body(s, i1 + 1).unwrap().1;
    lemma_lit_one(s, i1, '"');
    lemma_lit_concat(s, i1, seq!['"'], esc(t.name) + seq!['"']);
    let i3 = parse_author(s, i2).unwrap().1;
    match t.author {
        Some(a) => {
            lemma_str_sound(s, i2 + 11);
            lemma_lit_one(s, i2 + 10, '"');
            lemma_lit_concat(s, i2 + 10, seq!['"'], esc(a) + seq!['"']);
            lemma_lit_concat(s, i2, key_author(), quoted(a));
        },
        None => {
            assert(s.subrange(i2, i2) =~= ap);
        },
    }
    let i4 = i3 + 12;
    assert(0 <= i4 <= s.len());
    lemma_num_sound(s, i4);
    let i5 = parse_num(s, i4).unwrap().1;
    let i6 = parse_completed(s, i5).unwrap().1;
    match t.completed {
        Some(c) => {
            lemma_num_sound(s, i5 + 13);
            lemma_lit_concat(s, i5, key_completed(), digits(c as nat));
        },
        None => {
            assert(s.subrange(i5, i5) =~= cp);
        },
    }
    lemma_lit_one(s, i6, '}');
    lemma_lit_concat(s, i5, cp, seq!['}']);
    lemma_lit_concat(s, i4, dg, r5);
    lemma_lit_concat(s, i3, key_creation(), r4);
    lemma_lit_concat(s, i2, ap, r3);
    lemma_lit_concat(s, i1, q, r2);
    lemma_lit_concat(s, i, key_name(), r1);
}

proof fn lemma_items_complete(s: Seq<char>, i: int, l: Seq<TaskV>, acc: Seq<TaskV>)
    requires
        lit(s, i, enc_tail(l) + seq![']']),
    ensures
        parse_items(s, i, acc) == Some((acc + l, i + enc_tail(l).len() + 1)),
    decreases l.len(),
{
    if l.len() == 0 {
        assert(enc_tail(l) + seq![']'] =~= seq![']']);
        lemma_lit_at(s, i, seq![']'], 0);
        assert(acc + l =~= acc);
    } else {
        let et = enc_task(l[0]);
        let rest = l.drop_first();
        assert(enc_tail(l) + seq![']'] =~= seq![','] + (et + (enc_tail(rest) + seq![']'])));
        lemma_lit_concat(s, i, seq![','], et + (enc_tail(rest) + seq![']']));
        lemma_lit_at(s, i, seq![','], 0);
        lemma_lit_concat(s, i + 1, et, enc_tail(rest) + seq![']']);
        lemma_task_complete(s, i + 1, l[0]);
        let j = i + 1 + et.len();
        lemma_items_complete(s, j, rest, acc.push(l[0]));
        assert(acc.push(l[0]) + rest =~= acc + l);
    }
}

proof fn lemma_items_sound(s: Seq<char>, i: int, acc: Seq<TaskV>)
    requires
        parse_items(s, i, acc) is Some,
    ensures
        ({
            let (r, k) = parse_items(s, i, acc).unwrap();
            &&& r.len() >= acc.len()
            &&& r.take(acc.len() as int) == acc
            &&& lit(s, i, enc_tail(r.skip(acc.len() as int)) + seq![']'])
            &&& k == i + enc_tail(r.skip(acc.len() as int)).len() + 1
        }),
    decreases s.len() - i,
{
    let (r, k) = parse_items(s, i, acc).unwrap();
    if s[i] == ']' {
        assert(r.take(acc.len() as int) =~= acc);
        assert(r.skip(acc.len() as int) =~= Seq::<TaskV>::empty());
        assert(enc_tail(r.skip(acc.len() as int)) + seq![']'] =~= seq![']']);
        lemma_lit_one(s, i, ']');
    } else {
        let (t, j) = parse_task(s, i + 1).unwrap();
        lemma_task_sound(s, i + 1);
        lemma_items_sound(s, j, acc.push(t));
        let n = acc.len() as int;
        assert(r.take(n + 1) == acc.push(t));
        assert(r.take(n) =~= acc) by {
            assert forall|m: int| 0 <= m < n implies r.take(n)[m] == acc[m] by {
                assert(r.take(n + 1)[m] == r[m]);
            }
        }
        assert(r[n] == t) by {
            assert(r.take(n + 1)[n] == r[n]);
        }
        let sk = r.skip(n);
        assert(sk[0] == t);
        assert(sk.drop_first() =~= r.skip(n + 1));
        let et = enc_task(t);
        let tl = enc_tail(r.skip(n + 1)) + seq![']'];
        assert(enc_tail(sk) + seq![']'] =~= seq![','] + (et + tl));
        lemma_lit_one(s, i, ',');
        lemma_lit_concat(s, i + 1, et, tl);
        lemma_lit_concat(s, i, seq![','], et + tl);
    }
}

proof fn lemma_list_complete_in(s: Seq<char>, l: Seq<TaskV>)
    requires
        lit(s, 0, encode_list(l)),
        s.len() == encode_list(l).len(),
    ensures
        parse_list(s) == Some(l),
{
    reveal(parse_list);
    let ci = seq![']', '}'];
    lemma_lit_concat(s, 0, key_open(), enc_items(l) + ci);
    if l.len() == 0 {
        assert(enc_items(l) + ci =~= ci);
        lemma_lit_at(s, 10, ci, 0);
        lemma_lit_at(s, 10, ci, 1);
    } else {
        let et = enc_task(l[0]);
        let rest = l.drop_first();
        let tail = enc_tail(rest) + seq![']'];
        assert(enc_items(l) + ci =~= et + (tail + seq!['}']));
        lemma_lit_concat(s, 10, et, tail + seq!['}']);
        lemma_lit_at(s, 10, et, 0);
        lemma_task_complete(s, 10, l[0]);
        let j = 10 + et.len() as int;
        assert(parse_task(s, 10) == Some((l[0], j)));
        lemma_lit_concat(s, j, tail, seq!['}']);
        lemma_items_complete(s, j, rest, seq![l[0]]);
        assert(seq![l[0]] + rest =~= l);
        let k = j + tail.len() as int;
        assert(parse_items(s, j, seq![l[0]]) == Some((l, k)));
        lemma_lit_at(s, k, seq!['}'], 0);
        assert(k + 1 == s.len());
    }
}

proof fn lemma_list_complete(l: Seq<TaskV>)
    ensures
        parse_list(encode_list(l)) == Some(l),
{
    let s = encode_list(l);
    assert(s.subrange(0, s.len() as int) =~= s);
    lemma_list_complete_in(s, l);
}

proof fn lemma_list_sound(s: Seq<char>)
    requires
        parse_list(s) is Some,
    ensures
        encode_list(parse_list(s).unwrap()) == s,
{
    let l = parse_list(s).unwrap();
    let ci = seq![']', '}'];
    if s[10] == ']' {
        lemma_list_sound_empty(s);
    } else {
        lemma_parse_list_parts(s);
        let (t, j) = parse_task(s, 10).unwrap();
        lemma_task_sound(s, 10);
        lemma_items_sound(s, j, seq![t]);
        let (r, k) = parse_items(s, j, seq![t]).unwrap();
        assert(l[0] == t) by {
            assert(l.take(1)[0] == l[0]);
        }
        assert(l.skip(1) =~= l.drop_first());
        lemma_assemble(s, l, j, k);
    }
}

proof fn lemma_assemble(s: Seq<char>, l: Seq<TaskV>, j: int, k: int)
    requires
        l.len() > 0,
        lit(s, 0, key_open()),
        lit(s, 10, enc_task(l[0])),
        j == 10 + enc_task(l[0]).len(),
        lit(s, j, enc_tail(l.drop_first()) + seq![']']),
        k == j + enc_tail(l.drop_first()).len() + 1,
        k + 1 == s.len(),
        s[k] == '}',
    ensures
        encode_list(l) == s,
{
    let ci = seq![']', '}'];
    let et = enc_task(l[0]);
    let tail = enc_tail(l.drop_first()) + seq![']'];
    lemma_lit_one(s, k, '}');
    lemma_lit_concat(s, j, tail, seq!['}']);
    lemma_lit_concat(s, 10, et, tail + seq!['}']);
    assert(enc_items(l) + ci =~= et + (tail + seq!['}']));
    lemma_lit_concat(s, 0, key_open(), enc_items(l) + ci);
    assert(s.subrange(0, s.len() as int) =~= s);
}

proof fn lemma_parse_list_parts(s: Seq<char>)
    requires
        parse_list(s) is Some,
        s[10] != ']',
    ensures
        lit(s, 0, key_open()),
        parse_task(s, 10) is Some,
        10 < parse_task(s, 10).unwrap().1 <= s.len(),
        parse_items(s, parse_task(s, 10).unwrap().1, seq![parse_task(s, 10).unwrap().0]) is Some,
        ({
            let (r, k) = parse_items(
                s,
                parse_task(s, 10).unwrap().1,
                seq![parse_task(s, 10).unwrap().0],
            ).unwrap();
            &&& r == parse_list(s).unwrap()
            &&& k + 1 == s.len()
            &&& s[k] == '}'
        }),
{
    reveal(parse_list);
}

proof fn lemma_list_sound_empty(s: Seq<char>)
    requires
        parse_list(s) is Some,
        s[10] == ']',
    ensures
        encode_list(parse_list(s).unwrap()) == s,
{
    reveal(parse_list);
    let l = parse_list(s).unwrap();
    let ci = seq![']', '}'];
    assert(l.len() == 0);
    assert(s.len() == 12);
    assert(enc_items(l) + ci =~= ci);
    assert(s.subrange(10, 12) =~= ci);
    lemma_lit_concat(s, 0, key_open(), ci);
    assert(s.subrange(0, s.len() as int) =~= s);
}

/// Decoding the encoding of a list gives the list back.
pub proof fn lemma_round_trip(l: Seq<TaskV>)
    ensures
        parse_list(encode_list(l)) == Some(l),
{
    lemma_list_complete(l);
}

/// Two lists with the same text are the same list.
pub proof fn lemma_encode_injective(a: Seq<TaskV>, b: Seq<TaskV>)
    requires
        encode_list(a) == encode_list(b),
    ensures
        a == b,
{
    lemma_list_complete(a);
    lemma_list_complete(b);
}

fn key_open_v() -> (r: Vec<char>)
    ensures
        r@ == key_open(),
{
    let r = vec!['{', '"', 't', 'a', 's', 'k', 's', '"', ':', '['];
    assert(r@ =~= key_open());
    r
}

fn key_name_v() -> (r: Vec<char>)
    ensures
        r@ == key_name(),
{
    let r = vec!['{', '"', 'n', 'a', 'm', 'e', '"', ':'];
    assert(r@ =~= key_name());
    r
}

fn key_author_v() -> (r: Vec<char>)
    ensures
        r@ == key_author(),
{
    let r = vec![',', '"', 'a', 'u', 't', 'h', 'o', 'r', '"', ':'];
    assert(r@ =~= key_author());
    r
}

fn key_creation_v() -> (r: Vec<char>)
    ensures
        r@ == key_creation(),
{
    let r = vec![',', '"', 'c', 'r', 'e', 'a', 't', 'i', 'o', 'n', '"', ':'];
    assert(r@ =~= key_creation());
    r
}

fn key_completed_v() -> (r: Vec<char>)
    ensures
        r@ == key_completed(),
{
    let r = vec![',', '"', 'c', 'o', 'm', 'p', 'l', 'e', 't', 'e', 'd', '"', ':'];
    assert(r@ =~= key_completed());
    r
}

/// Appends the text of one task object.
fn write_task(out: &mut Vec<char>, t: &Task)
    ensures
        final(out)@ == old(out)@ + enc_task(t@),
{
    let ghost o = out@;
    write_all(out, &key_name_v());
    write_quoted(out, &chars_of(t.name.as_str()));
    let ghost o2 = out@;
    match &t.author {
        Some(a) => {
            write_all(out, &key_author_v());
            write_quoted(out, &chars_of(a.as_str()));
        },
        None => {},
    }
    assert(out@ =~= o2 + author_part(t@.author));
    let ghost o3 = out@;
    write_all(out, &key_creation_v());
    write_digits(out, t.creation);
    let ghost o4 = out@;
    match t.completed {
        Some(c) => {
            write_all(out, &key_completed_v());
            write_digits(out, c);
        },
        None => {},
    }
    assert(out@ =~= o4 + completed_part(t@.completed));
    out.push('}');
    assert(out@ =~= o + enc_task(t@));
}

proof fn lemma_tail_push(l: Seq<TaskV>, t: TaskV)
    ensures
        enc_tail(l.push(t)) == enc_tail(l) + (seq![','] + enc_task(t)),
    decreases l.len(),
{
    if l.len() == 0 {
        assert(l.push(t).drop_first() =~= Seq::<TaskV>::empty());
        assert(enc_tail(Seq::<TaskV>::empty()) =~= Seq::<char>::empty());
        assert(l.push(t)[0] == t);
        assert(enc_tail(l) =~= Seq::<char>::empty());
        assert(enc_tail(l.push(t)) =~= enc_tail(l) + (seq![','] + enc_task(t)));
    } else {
        lemma_tail_push(l.drop_first(), t);
        assert(l.push(t).drop_first() =~= l.drop_first().push(t));
        assert(l.push(t)[0] == l[0]);
        let x = seq![','] + enc_task(t);
        let e0 = enc_task(l[0]);
        let r = enc_tail(l.drop_first());
        assert(enc_tail(l.push(t)) == seq![','] + (e0 + (r + x)));
        assert(enc_tail(l) == seq![','] + (e0 + r));
        assert(seq![','] + (e0 + (r + x)) =~= (seq![','] + (e0 + r)) + x);
    }
}

/// The text of `list`.
pub fn encode(list: &List) -> (r: String)
    ensures
        r@ == encode_list(list@),
{
    let mut out = key_open_v();
    let mut k: usize = 0;
    while k < list.tasks.len()
        invariant
            k <= list.tasks.len(),
            out@ == key_open() + enc_items(list@.take(k as int)),
        decreases list.tasks.len() - k,
    {
        let ghost pre = list@.take(k as int);
        let ghost t = list.tasks@[k as int]@;
        assert(list@.take(k + 1) =~= pre.push(t));
        if k > 0 {
            out.push(',');
        }
        write_task(&mut out, &list.tasks[k]);
        proof {
            if k == 0 {
                assert(pre.push(t).drop_first() =~= Seq::<TaskV>::empty());
                assert(out@ =~= key_open() + enc_items(pre.push(t)));
            } else {
                lemma_tail_push(pre.drop_first(), t);
                assert(pre.push(t).drop_first() =~= pre.drop_first().push(t));
                assert(pre.push(t)[0] == pre[0]);
                assert(out@ =~= key_open() + enc_items(pre.push(t)));
            }
        }
        k += 1;
    }
    out.push(']');
    out.push('}');
    assert(list@.take(k as int) =~= list@);
    assert(out@ =~= encode_list(list@));
    string_of(&out)
}

fn read_author(s: &Vec<char>, i: usize) -> (r: Option<(Option<String>, usize)>)
    ensures
        match r {
            Some((a, j)) => parse_author(s@, i as int) == Some((
                crate::model::opt_str_view(a),
                j as int,
            )),
            None => parse_author(s@, i as int) is None,
        },
{
    let key = key_author_v();
    let found = read_lit(s, i, &key);
    if found {
        assert(key_author().len() == 10);
        let n = s.len();
        if i + 10 < n && s[i + 10] == '"' {
            match read_str_body(s, i + 11) {
                Some((a, j)) => Some((Some(string_of(&a)), j)),
                None => None,
            }
        } else {
            None
        }
    } else {
        Some((None, i))
    }
}

fn read_completed(s: &Vec<char>, i: usize) -> (r: Option<(Option<u64>, usize)>)
    ensures
        match r {
            Some((c, j)) => parse_completed(s@, i as int) == Some((c, j as int)),
            None => parse_completed(s@, i as int) is None,
        },
{
    let key = key_completed_v();
    let found = read_lit(s, i, &key);
    if found {
        assert(key_completed().len() == 13);
        let n = s.len();
        match read_num(s, i + 13) {
            Some((c, j)) => Some((Some(c), j)),
            None => None,
        }
    } else {
        Some((None, i))
    }
}

fn read_task(s: &Vec<char>, i: usize) -> (r: Option<(Task, usize)>)
    ensures
        match r {
            Some((t, j)) => parse_task(s@, i as int) == Some((t@, j as int)),
            None => parse_task(s@, i as int) is None,
        },
{
    let key = key_name_v();
    let found = read_lit(s, i, &key);
    if !found {
        return None;
    }
    assert(key_name().len() == 8);
    let n = s.len();
    if !(i + 8 < s.len() && s[i + 8] == '"') {
        return None;
    }
    let (name, i2) = match read_str_body(s, i + 9) {
        Some(p) => p,
        None => return None,
    };
    proof {
        lemma_str_sound(s@, i + 9);
    }
    let (author, i3) = match read_author(s, i2) {
        Some(p) => p,
        None => return None,
    };
    proof {
        if lit(s@, i2 as int, key_author()) {
            lemma_str_sound(s@, i2 + 11);
        }
    }
    if !read_lit(s, i3, &key_creation_v()) {
        return None;
    }
    let (creation, i4) = match read_num(s, i3 + 12) {
        Some(p) => p,
        None => return None,
    };
    proof {
        lemma_num_sound(s@, i3 + 12);
    }
    let (completed, i5) = match read_completed(s, i4) {
        Some(p) => p,
        None => return None,
    };
    proof {
        if lit(s@, i4 as int, key_completed()) {
            lemma_num_sound(s@, i4 + 13);
        }
    }
    if !(i5 < s.len() && s[i5] == '}') {
        return None;
    }
    let t = Task { name: string_of(&name), author, creation, completed };
    Some((t, i5 + 1))
}

fn read_items(s: &Vec<char>, i: usize, init: Vec<Task>) -> (r: Option<(Vec<Task>, usize)>)
    ensures
        match r {
            Some((l, j)) => parse_items(
                s@,
                i as int,
                tasks_view(init@),
            ) == Some((tasks_view(l@), j as int)),
            None => parse_items(s@, i as int, tasks_view(init@)) is None,
        },
{
    let mut acc = init;
    let mut k = i;
    let ghost goal = parse_items(s@, i as int, tasks_view(acc@));
    assert(goal == parse_items(s@, i as int, tasks_view(init@)));
    while k < s.len()
        invariant
            parse_items(s@, k as int, tasks_view(acc@)) == goal,
            goal == parse_items(s@, i as int, tasks_view(init@)),
        decreases s.len() - k,
    {
        if s[k] == ']' {
            assert(parse_items(s@, k as int, tasks_view(acc@)) == Some((tasks_view(acc@), k + 1)));
            assert(goal == Some((tasks_view(acc@), k + 1)));
            return Some((acc, k + 1));
        } else if s[k] == ',' {
            match read_task(s, k + 1) {
                Some((t, j)) => {
                    if k < j && j <= s.len() {
                        let ghost tv = t@;
                        let ghost before = acc@;
                        acc.push(t);
                        assert(tasks_view(acc@) =~= tasks_view(before).push(tv));
                        k = j;
                    } else {
                        return None;
                    }
                },
                None => return None,
            }
        } else {
            return None;
        }
    }
    None
}

/// The text is not one that `encode` writes.
#[derive(Debug, Clone, Copy, PartialEq, Eq)]
pub struct ParseError;

/// Reads a list back from its text. Exactly the texts that `encode` writes
/// are accepted, each as the list it was written from.
pub fn decode(text: &str) -> (r: Result<List, ParseError>)
    ensures
        match r {
            Ok(l) => parse_list(text@) == Some(l@) && encode_list(l@) == text@,
            Err(_) => parse_list(text@) is None && forall|l: Seq<TaskV>|
                #[trigger] encode_list(l) != text@,
        },
{
    let s = chars_of(text);
    let r = read_list(&s);
    proof {
        if r is Ok {
            lemma_list_sound(s@);
        } else {
            assert forall|l: Seq<TaskV>| #[trigger] encode_list(l) != text@ by {
                if encode_list(l) == text@ {
                    lemma_list_complete(l);
                }
            }
        }
    }
    r
}

fn read_list(s: &Vec<char>) -> (r: Result<List, ParseError>)
    ensures
        match r {
            Ok(l) => parse_list(s@) == Some(l@),
            Err(_) => parse_list(s@) is None,
        },
{
    reveal(parse_list);
    let key = key_open_v();
    let found = read_lit(s, 0, &key);
    let n = s.len();
    if !found || n <= 10 {
        return Err(ParseError);
    }
    let (tasks, k) = if s[10] == ']' {
        (Vec::new(), 11)
    } else {
        match read_task(s, 10) {
            Some((t, j)) => {
                if 10 < j && j <= n {
                    let first = vec![t];
                    assert(tasks_view(first@) =~= seq![first@[0]@]);
                    match read_items(s, j, first) {
                        Some(p) => p,
                        None => return Err(ParseError),
                    }
                } else {
                    return Err(ParseError);
                }
            },
            None => return Err(ParseError),
        }
    };
    proof {
        if s@[10] == ']' {
            assert(tasks_view(tasks@) =~= Seq::<TaskV>::empty());
        }
    }
    if k < n && k + 1 == n && s[k] == '}' {
        Ok(List { tasks })
    } else {
        Err(ParseError)
    }
}
} // verus!
