//! Whitespace tokenizing of launch commands and descriptor text.
use vstd::prelude::*;

verus! {

/// Unicode `White_Space` characters, the set that `char::is_whitespace` tests.
pub open spec fn white(c: char) -> bool {
    let u = c as u32;
    (0x9 <= u && u <= 0xd) || u == 0x20 || u == 0x85 || u == 0xa0 || u == 0x1680 || (0x2000 <= u
        && u <= 0x200a) || u == 0x2028 || u == 0x2029 || u == 0x202f || u == 0x205f || u == 0x3000
}

pub fn is_white(c: char) -> (r: bool)
    ensures
        r == white(c),
{
    let u = c as u32;
    (0x9 <= u && u <= 0xd) || u == 0x20 || u == 0x85 || u == 0xa0 || u == 0x1680 || (0x2000 <= u
        && u <= 0x200a) || u == 0x2028 || u == 0x2029 || u == 0x202f || u == 0x205f || u == 0x3000
}

/// Splits `s` into maximal runs of non-white characters; `cur` is the run
/// that was already begun before `s`.
pub open spec fn split_words(s: Seq<char>, cur: Seq<char>) -> Seq<Seq<char>>
    decreases s.len(),
{
    if s.len() == 0 {
        if cur.len() > 0 {
            seq![cur]
        } else {
            seq![]
        }
    } else if white(s[0]) {
        let head: Seq<Seq<char>> = if cur.len() > 0 {
            seq![cur]
        } else {
            seq![]
        };
        head + split_words(s.drop_first(), seq![])
    } else {
        split_words(s.drop_first(), cur.push(s[0]))
    }
}

/// The whitespace-separated words of `s`, as `str::split_whitespace` yields them.
pub open spec fn words(s: Seq<char>) -> Seq<Seq<char>> {
    split_words(s, seq![])
}

/// `s` without its leading whitespace, as `str::trim_start` gives it.
pub open spec fn skip_white(s: Seq<char>) -> Seq<char>
    decreases s.len(),
{
    if s.len() > 0 && white(s[0]) {
        skip_white(s.drop_first())
    } else {
        s
    }
}

/// Splits `s` at each newline, as `str::lines` does; `cur` is the line that
/// was already begun before `s`. A final newline opens no further line.
pub open spec fn split_lines(s: Seq<char>, cur: Seq<char>) -> Seq<Seq<char>>
    decreases s.len(),
{
    if s.len() == 0 {
        if cur.len() > 0 {
            seq![cur]
        } else {
            seq![]
        }
    } else if s[0] == '\n' {
        seq![cur] + split_lines(s.drop_first(), seq![])
    } else {
        split_lines(s.drop_first(), cur.push(s[0]))
    }
}

pub open spec fn lines(s: Seq<char>) -> Seq<Seq<char>> {
    split_lines(s, seq![])
}

/// A field code is a word that begins with `%` (`%f`, `%u`, ...).
pub open spec fn is_field_code(w: Seq<char>) -> bool {
    w.len() > 0 && w[0] == '%'
}

/// The words of a sequence that are not field codes, in order.
pub open spec fn without_field_codes(ws: Seq<Seq<char>>) -> Seq<Seq<char>>
    decreases ws.len(),
{
    if ws.len() == 0 {
        seq![]
    } else {
        let rest = without_field_codes(ws.drop_last());
        if is_field_code(ws.last()) {
            rest
        } else {
            rest.push(ws.last())
        }
    }
}

/// The words joined by single spaces.
pub open spec fn join_spaces(ws: Seq<Seq<char>>) -> Seq<char>
    decreases ws.len(),
{
    if ws.len() == 0 {
        seq![]
    } else if ws.len() == 1 {
        ws[0]
    } else {
        join_spaces(ws.drop_last()) + seq![' '] + ws.last()
    }
}

/// The command that a launch template runs: its words, field codes dropped,
/// joined by single spaces.
pub open spec fn launch_command(template: Seq<char>) -> Seq<char> {
    join_spaces(without_field_codes(words(template)))
}

pub open spec fn exec_key() -> Seq<char> {
    seq!['E', 'x', 'e', 'c', '=']
}

/// The first word after `Exec=` on a line whose text, past leading
/// whitespace, begins with `Exec=`.
pub open spec fn exec_token_of_line(line: Seq<char>) -> Option<Seq<char>> {
    let t = skip_white(line);
    if t.len() >= 5 && t.take(5) == exec_key() && words(t.skip(5)).len() > 0 {
        Some(words(t.skip(5))[0])
    } else {
        None
    }
}

/// The exec token of the first line that has one.
pub open spec fn first_exec_token(ls: Seq<Seq<char>>) -> Option<Seq<char>>
    decreases ls.len(),
{
    if ls.len() == 0 {
        None
    } else if exec_token_of_line(ls[0]) is Some {
        exec_token_of_line(ls[0])
    } else {
        first_exec_token(ls.drop_first())
    }
}

pub open spec fn opt_view(o: Option<String>) -> Option<Seq<char>> {
    match o {
        Some(s) => Some(s@),
        None => None,
    }
}

/// Relies on `str::chars`: the characters of `s`, in order.
#[verifier::external_body]
pub(crate) fn chars_of(s: &str) -> (r: Vec<char>)
    ensures
        r@ == s@,
{
    s.chars().collect()
}

proof fn lemma_words_white_step(s: Seq<char>, i: int, to: int, cur: Seq<char>)
    requires
        0 <= i < to <= s.len(),
        white(s[i]),
    ensures
        split_words(s.subrange(i, to), cur) == (if cur.len() > 0 {
            seq![cur]
        } else {
            seq![]
        }) + split_words(s.subrange(i + 1, to), seq![]),
{
    assert(s.subrange(i, to).drop_first() =~= s.subrange(i + 1, to));
}

proof fn lemma_words_char_step(s: Seq<char>, i: int, to: int, cur: Seq<char>)
    requires
        0 <= i < to <= s.len(),
        !white(s[i]),
    ensures
        split_words(s.subrange(i, to), cur) == split_words(s.subrange(i + 1, to), cur.push(s[i])),
{
    assert(s.subrange(i, to).drop_first() =~= s.subrange(i + 1, to));
}

/// Finds the first word of `cs[from..to]`, as the range `(start, end)` that
/// holds it, or `None` where that stretch is all whitespace.
fn first_word(cs: &Vec<char>, from: usize, to: usize) -> (r: Option<(usize, usize)>)
    requires
        from <= to <= cs@.len(),
    ensures
        match r {
            Some((a, b)) => from <= a < b <= to && words(cs@.subrange(from as int, to as int))
                == seq![cs@.subrange(a as int, b as int)] + words(cs@.subrange(b as int, to as int)),
            None => words(cs@.subrange(from as int, to as int)) == Seq::<Seq<char>>::empty(),
        },
{
    let mut a: usize = from;
    while a < to && is_white(cs[a])
        invariant
            from <= a <= to <= cs@.len(),
            words(cs@.subrange(from as int, to as int)) == words(cs@.subrange(a as int, to as int)),
        decreases to - a,
    {
        proof {
            lemma_words_white_step(cs@, a as int, to as int, seq![]);
            assert(seq![] + words(cs@.subrange(a + 1, to as int)) =~= words(
                cs@.subrange(a + 1, to as int),
            ));
        }
        a = a + 1;
    }
    if a == to {
        assert(cs@.subrange(a as int, to as int) =~= Seq::<char>::empty());
        return None;
    }
    let mut b: usize = a;
    assert(cs@.subrange(a as int, a as int) =~= Seq::<char>::empty());
    while b < to && !is_white(cs[b])
        invariant
            from <= a <= b <= to <= cs@.len(),
            a < to,
            b == a ==> !white(cs@[a as int]),
            words(cs@.subrange(a as int, to as int)) == split_words(
                cs@.subrange(b as int, to as int),
                cs@.subrange(a as int, b as int),
            ),
        decreases to - b,
    {
        proof {
            lemma_words_char_step(cs@, b as int, to as int, cs@.subrange(a as int, b as int));
            assert(cs@.subrange(a as int, b as int).push(cs@[b as int]) =~= cs@.subrange(
                a as int,
                b as int + 1,
            ));
        }
        b = b + 1;
    }
    proof {
        let w = cs@.subrange(a as int, b as int);
        assert(w.len() > 0);
        if b < to {
            lemma_words_white_step(cs@, b as int, to as int, w);
            lemma_words_white_step(cs@, b as int, to as int, seq![]);
            assert(seq![] + words(cs@.subrange(b + 1, to as int)) =~= words(
                cs@.subrange(b + 1, to as int),
            ));
        } else {
            assert(cs@.subrange(b as int, to as int) =~= Seq::<char>::empty());
            assert(seq![w] + Seq::<Seq<char>>::empty() =~= seq![w]);
        }
    }
    Some((a, b))
}

/// The command that a launch template runs: the template's words without
/// the field codes, joined by single spaces.
pub fn strip_field_codes(template: &str) -> (r: String)
    ensures
        r@ == launch_command(template@),
{
    let cs = chars_of(template);
    let n = cs.len();
    let mut out = String::new();
    let mut i: usize = 0;
    let mut none_kept = true;
    let ghost mut done: Seq<Seq<char>> = seq![];
    assert(cs@.subrange(0, n as int) =~= cs@);
    assert(seq![] + words(cs@) =~= words(cs@));
    while i < n
        invariant_except_break
            i <= n == cs@.len(),
            cs@ == template@,
            words(cs@) == done + words(cs@.subrange(i as int, n as int)),
            out@ == join_spaces(without_field_codes(done)),
            none_kept == (without_field_codes(done).len() == 0),
        ensures
            words(cs@) == done,
            out@ == join_spaces(without_field_codes(done)),
        decreases n - i,
    {
        match first_word(&cs, i, n) {
            None => {
                assert(done + Seq::<Seq<char>>::empty() =~= done);
                break;
            },
            Some((a, b)) => {
                let ghost w = cs@.subrange(a as int, b as int);
                let ghost prev = done;
                proof {
                    done = done.push(w);
                    assert(done.drop_last() =~= prev);
                    assert(prev + (seq![w] + words(cs@.subrange(b as int, n as int))) =~= done
                        + words(cs@.subrange(b as int, n as int)));
                }
                if cs[a] != '%' {
                    let piece = template.substring_char(a, b);
                    if none_kept {
                        proof {
                            assert(without_field_codes(done) =~= seq![w]);
                        }
                        out.append(piece);
                        assert(out@ =~= w);
                    } else {
                        let sp = " ";
                        proof {
                            reveal_strlit(" ");
                            assert(without_field_codes(done).drop_last() =~= without_field_codes(
                                prev,
                            ));
                        }
                        out.append(sp);
                        out.append(piece);
                    }
                    none_kept = false;
                }
                i = b;
            },
        }
    }
    proof {
        if i == n {
            assert(cs@.subrange(n as int, n as int) =~= Seq::<char>::empty());
            assert(done + Seq::<Seq<char>>::empty() =~= done);
        }
    }
    out
}

proof fn lemma_lines_newline_step(s: Seq<char>, i: int, to: int, cur: Seq<char>)
    requires
        0 <= i < to <= s.len(),
        s[i] == '\n',
    ensures
        split_lines(s.subrange(i, to), cur) == seq![cur] + split_lines(
            s.subrange(i + 1, to),
            seq![],
        ),
{
    assert(s.subrange(i, to).drop_first() =~= s.subrange(i + 1, to));
}

proof fn lemma_lines_char_step(s: Seq<char>, i: int, to: int, cur: Seq<char>)
    requires
        0 <= i < to <= s.len(),
        s[i] != '\n',
    ensures
        split_lines(s.subrange(i, to), cur) == split_lines(s.subrange(i + 1, to), cur.push(s[i])),
{
    assert(s.subrange(i, to).drop_first() =~= s.subrange(i + 1, to));
}

/// The exec token of the line `cs[a..b]`, as a range of `cs`.
fn line_exec_token(cs: &Vec<char>, a: usize, b: usize) -> (r: Option<(usize, usize)>)
    requires
        a <= b <= cs@.len(),
    ensures
        match r {
            Some((x, y)) => x <= y <= cs@.len() && exec_token_of_line(
                cs@.subrange(a as int, b as int),
            ) == Some(cs@.subrange(x as int, y as int)),
            None => exec_token_of_line(cs@.subrange(a as int, b as int)) is None,
        },
{
    let mut k: usize = a;
    while k < b && is_white(cs[k])
        invariant
            a <= k <= b <= cs@.len(),
            skip_white(cs@.subrange(a as int, b as int)) == skip_white(
                cs@.subrange(k as int, b as int),
            ),
        decreases b - k,
    {
        assert(cs@.subrange(k as int, b as int).drop_first() =~= cs@.subrange(k + 1, b as int));
        k = k + 1;
    }
    let ghost t = cs@.subrange(k as int, b as int);
    assert(skip_white(t) == t);
    if b - k >= 5 && cs[k] == 'E' && cs[k + 1] == 'x' && cs[k + 2] == 'e' && cs[k + 3] == 'c'
        && cs[k + 4] == '=' {
        assert(t.take(5) =~= exec_key());
        assert(t.skip(5) =~= cs@.subrange(k + 5, b as int));
        match first_word(cs, k + 5, b) {
            Some((x, y)) => Some((x, y)),
            None => None,
        }
    } else {
        assert(t.len() >= 5 ==> t.take(5)[0] == t[0] && t.take(5)[1] == t[1] && t.take(5)[2]
            == t[2] && t.take(5)[3] == t[3] && t.take(5)[4] == t[4]);
        assert(t.len() >= 5 ==> t.take(5) != exec_key() || (t[0] == 'E' && t[1] == 'x' && t[2]
            == 'e' && t[3] == 'c' && t[4] == '='));
        None
    }
}

/// The executable named by a desktop-entry text: the first word after `Exec=`
/// on the first line that begins with `Exec=` (past leading whitespace) and
/// has a word there.
pub fn parse_first_exec_token(contents: &str) -> (r: Option<String>)
    ensures
        opt_view(r) == first_exec_token(lines(contents@)),
{
    let cs = chars_of(contents);
    let n = cs.len();
    let mut a: usize = 0;
    assert(cs@.subrange(0, n as int) =~= cs@);
    while a < n
        invariant
            a <= n == cs@.len(),
            cs@ == contents@,
            first_exec_token(lines(cs@)) == first_exec_token(
                lines(cs@.subrange(a as int, n as int)),
            ),
        decreases n - a,
    {
        let mut b: usize = a;
        assert(cs@.subrange(a as int, a as int) =~= Seq::<char>::empty());
        while b < n && cs[b] != '\n'
            invariant
                a <= b <= n == cs@.len(),
                lines(cs@.subrange(a as int, n as int)) == split_lines(
                    cs@.subrange(b as int, n as int),
                    cs@.subrange(a as int, b as int),
                ),
            decreases n - b,
        {
            proof {
                lemma_lines_char_step(cs@, b as int, n as int, cs@.subrange(a as int, b as int));
                assert(cs@.subrange(a as int, b as int).push(cs@[b as int]) =~= cs@.subrange(
                    a as int,
                    b + 1,
                ));
            }
            b = b + 1;
        }
        let ghost line = cs@.subrange(a as int, b as int);
        let ghost ls = lines(cs@.subrange(a as int, n as int));
        proof {
            if b < n {
                lemma_lines_newline_step(cs@, b as int, n as int, line);
                assert(ls.drop_first() =~= lines(cs@.subrange(b + 1, n as int)));
            } else {
                assert(cs@.subrange(b as int, n as int) =~= Seq::<char>::empty());
                assert(ls.drop_first() =~= Seq::<Seq<char>>::empty());
            }
            assert(ls[0] == line);
        }
        match line_exec_token(&cs, a, b) {
            Some((x, y)) => {
                let tok = contents.substring_char(x, y);
                return Some(String::from_str(tok));
            },
            None => {},
        }
        if b == n {
            assert(first_exec_token(Seq::<Seq<char>>::empty()) is None);
            return None;
        }
        a = b + 1;
    }
    assert(cs@.subrange(a as int, n as int) =~= Seq::<char>::empty());
    None
}

} // verus!
