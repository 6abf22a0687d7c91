//! Building and taking apart text.
use vstd::prelude::*;
use vstd::string::*;

verus! {

/// `String::push` appends the given character to the end of the string.
pub assume_specification[ String::push ](s: &mut String, c: char)
    ensures
        final(s)@ == old(s)@.push(c),
;

/// What each string of a list reads.
pub open spec fn views(strings: Seq<String>) -> Seq<Seq<char>> {
    strings.map_values(|s: String| s@)
}

/// The decimal digit `d`.
pub open spec fn digit(d: nat) -> char {
    (('0' as nat) + d) as char
}

/// The decimal notation of `n`.
pub open spec fn decimal(n: nat) -> Seq<char>
    decreases n,
{
    if n < 10 {
        seq![digit(n)]
    } else {
        decimal(n / 10).push(digit(n % 10))
    }
}

/// `count` times the character `c`.
pub open spec fn repeated(c: char, count: nat) -> Seq<char> {
    Seq::new(count, |i: int| c)
}

/// `s` with spaces before it, up to `width` characters.
pub open spec fn right_aligned(s: Seq<char>, width: nat) -> Seq<char> {
    if s.len() < width {
        repeated(' ', (width - s.len()) as nat) + s
    } else {
        s
    }
}

/// `s` with spaces behind it, up to `width` characters.
pub open spec fn left_aligned(s: Seq<char>, width: nat) -> Seq<char> {
    if s.len() < width {
        s + repeated(' ', (width - s.len()) as nat)
    } else {
        s
    }
}

/// The pieces of `s` between the separators; one more piece than separators.
pub open spec fn split(s: Seq<char>, separator: char) -> Seq<Seq<char>>
    decreases s.len(),
{
    if s.len() == 0 {
        seq![Seq::empty()]
    } else {
        let before = split(s.drop_last(), separator);
        if s.last() == separator {
            before.push(Seq::empty())
        } else {
            before.drop_last().push(before.last().push(s.last()))
        }
    }
}

/// The pieces with a separator between each two of them.
pub open spec fn joined(pieces: Seq<Seq<char>>, separator: char) -> Seq<char>
    decreases pieces.len(),
{
    if pieces.len() == 0 {
        Seq::empty()
    } else if pieces.len() == 1 {
        pieces[0]
    } else {
        joined(pieces.drop_last(), separator).push(separator) + pieces.last()
    }
}

/// A text without the separator is one piece.
pub proof fn lemma_split_whole(s: Seq<char>, separator: char)
    requires
        !s.contains(separator),
    ensures
        split(s, separator) == seq![s],
    decreases s.len(),
{
    if s.len() > 0 {
        let rest = s.drop_last();
        assert(s[s.len() - 1] != separator);
        assert forall|i: int| 0 <= i < rest.len() implies rest[i] != separator by {
            assert(rest[i] == s[i]);
        }
        lemma_split_whole(rest, separator);
        assert(rest.push(s.last()) =~= s);
        assert(split(s, separator) =~= seq![s]);
    } else {
        assert(s =~= Seq::empty());
    }
}

/// Two texts with a separator between them have the pieces of both.
pub proof fn law_split_adds_up(a: Seq<char>, b: Seq<char>, separator: char)
    ensures
        split(a.push(separator) + b, separator) == split(a, separator) + split(b, separator),
        split(b, separator).len() > 0,
    decreases b.len(),
{
    let all = a.push(separator) + b;
    if b.len() == 0 {
        assert(all.drop_last() =~= a);
        assert(split(all, separator) =~= split(a, separator) + split(b, separator));
    } else {
        assert(all.drop_last() =~= a.push(separator) + b.drop_last());
        law_split_adds_up(a, b.drop_last(), separator);
        let x = split(a, separator);
        let y = split(b.drop_last(), separator);
        assert((x + y).drop_last() =~= x + y.drop_last());
        assert(split(all, separator) =~= x + split(b, separator));
    }
}

/// The pieces hold no separator, and joined again they are the text.
pub proof fn law_split_joins(s: Seq<char>, separator: char)
    ensures
        joined(split(s, separator), separator) == s,
        split(s, separator).len() > 0,
        forall|i: int|
            0 <= i < split(s, separator).len() ==> !(#[trigger] split(s, separator)[i]).contains(
                separator,
            ),
    decreases s.len(),
{
    let pieces = split(s, separator);
    if s.len() == 0 {
        assert(joined(pieces, separator) =~= s);
    } else {
        let rest = s.drop_last();
        let before = split(rest, separator);
        law_split_joins(rest, separator);
        assert(rest.push(s.last()) =~= s);
        if s.last() == separator {
            assert(pieces.drop_last() =~= before);
            assert(joined(pieces, separator) =~= s);
            assert forall|i: int| 0 <= i < pieces.len() implies !(#[trigger] pieces[i]).contains(
                separator,
            ) by {
                if i < before.len() {
                    assert(pieces[i] == before[i]);
                }
            }
        } else {
            assert(pieces.drop_last() =~= before.drop_last());
            assert(joined(pieces, separator) =~= joined(before, separator).push(s.last()));
            assert forall|i: int| 0 <= i < pieces.len() implies !(#[trigger] pieces[i]).contains(
                separator,
            ) by {
                if i < before.len() - 1 {
                    assert(pieces[i] == before[i]);
                } else {
                    let last = before[before.len() - 1];
                    assert(pieces[i] == last.push(s.last()));
                    assert forall|j: int| 0 <= j < pieces[i].len() implies pieces[i][j]
                        != separator by {
                        if j < last.len() {
                            assert(last[j] == pieces[i][j]);
                        }
                    }
                }
            }
        }
    }
}

/// Pieces without separators are what their join is split into.
pub proof fn law_split_of_joined(pieces: Seq<Seq<char>>, separator: char)
    requires
        pieces.len() > 0,
        forall|i: int| 0 <= i < pieces.len() ==> !(#[trigger] pieces[i]).contains(separator),
    ensures
        split(joined(pieces, separator), separator) == pieces,
    decreases pieces.len(),
{
    if pieces.len() == 1 {
        lemma_split_whole(pieces[0], separator);
        assert(pieces =~= seq![pieces[0]]);
    } else {
        let rest = pieces.drop_last();
        let last = pieces[pieces.len() - 1];
        assert forall|i: int| 0 <= i < rest.len() implies !(#[trigger] rest[i]).contains(
            separator,
        ) by {
            assert(rest[i] == pieces[i]);
        }
        law_split_of_joined(rest, separator);
        law_split_adds_up(joined(rest, separator), last, separator);
        lemma_split_whole(last, separator);
        assert(rest + seq![last] =~= pieces);
    }
}

/// The lines of a text are read back, whether a line feed or a carriage return and a line
/// feed ends each of them. The last one need not be ended, if it is not empty.
pub proof fn law_lines_read_back(pieces: Seq<Seq<char>>, with_return: bool)
    requires
        forall|i: int|
            0 <= i < pieces.len() ==> !(#[trigger] pieces[i]).contains('\n') && (pieces[i].len() > 0
                ==> pieces[i].last() != '\r'),
    ensures
        lines(ended(pieces, with_return)) == pieces,
        !with_return && pieces.len() > 0 && pieces.last().len() > 0 ==> lines(
            joined(pieces, '\n'),
        ) == pieces,
{
    let raw = Seq::new(
        pieces.len(),
        |i: int|
            if with_return {
                pieces[i].push('\r')
            } else {
                pieces[i]
            },
    );
    let none = Seq::<char>::empty();
    let all = raw.push(none);
    assert forall|i: int| 0 <= i < all.len() implies !(#[trigger] all[i]).contains('\n') by {
        if i < pieces.len() {
            assert(!pieces[i].contains('\n'));
            assert forall|j: int| 0 <= j < all[i].len() implies all[i][j] != '\n' by {
                if j < pieces[i].len() {
                    assert(pieces[i][j] == all[i][j]);
                }
            }
        }
    }
    law_split_of_joined(all, '\n');
    lemma_ended_joined(pieces, raw, with_return);
    assert(all.drop_last() =~= raw);
    assert forall|i: int| 0 <= i < raw.len() implies #[trigger] without_return(raw[i])
        == pieces[i] by {
        if with_return {
            assert(raw[i].drop_last() =~= pieces[i]);
        }
    }
    assert(lines(ended(pieces, with_return)) =~= pieces);
    if !with_return && pieces.len() > 0 && pieces.last().len() > 0 {
        law_split_of_joined(pieces, '\n');
        let most = pieces.drop_last();
        assert forall|i: int| 0 <= i < most.len() implies #[trigger] without_return(most[i])
            == pieces[i] by {
            assert(most[i] == pieces[i]);
        }
        assert(lines(joined(pieces, '\n')) =~= pieces);
    }
}

/// The lines, each with its end.
pub open spec fn ended(pieces: Seq<Seq<char>>, with_return: bool) -> Seq<char>
    decreases pieces.len(),
{
    if pieces.len() == 0 {
        Seq::empty()
    } else {
        let before = ended(pieces.drop_last(), with_return) + pieces.last();
        if with_return {
            before.push('\r').push('\n')
        } else {
            before.push('\n')
        }
    }
}

/// Lines with their ends are the lines joined, with an empty piece behind them.
proof fn lemma_ended_joined(pieces: Seq<Seq<char>>, raw: Seq<Seq<char>>, with_return: bool)
    requires
        raw.len() == pieces.len(),
        forall|i: int|
            0 <= i < pieces.len() ==> #[trigger] raw[i] == (if with_return {
                pieces[i].push('\r')
            } else {
                pieces[i]
            }),
    ensures
        ended(pieces, with_return) == joined(raw.push(Seq::empty()), '\n'),
    decreases pieces.len(),
{
    let none = Seq::<char>::empty();
    let all = raw.push(none);
    assert(all.drop_last() =~= raw);
    if pieces.len() == 0 {
        assert(ended(pieces, with_return) =~= joined(all, '\n'));
    } else {
        let rest = pieces.drop_last();
        let less = raw.drop_last();
        assert forall|i: int| 0 <= i < rest.len() implies #[trigger] less[i] == (if with_return {
            rest[i].push('\r')
        } else {
            rest[i]
        }) by {
            assert(raw[i] == less[i]);
        }
        lemma_ended_joined(rest, less, with_return);
        let x = less.push(none);
        assert(x.drop_last() =~= less);
        assert(raw[raw.len() - 1] == raw.last());
        if raw.len() == 1 {
            assert(less =~= Seq::empty());
            assert(joined(raw, '\n') == raw[0]);
            assert(ended(rest, with_return) =~= Seq::empty());
        } else {
            assert(joined(raw, '\n') == joined(less, '\n').push('\n') + raw.last());
            assert(joined(x, '\n') =~= joined(less, '\n').push('\n'));
        }
        assert(joined(all, '\n') =~= joined(raw, '\n').push('\n'));
        assert(ended(pieces, with_return) =~= joined(all, '\n'));
    }
}

/// The number that decimal digits write.
pub open spec fn decimal_value(digits: Seq<char>) -> int
    decreases digits.len(),
{
    if digits.len() == 0 {
        0
    } else {
        10 * decimal_value(digits.drop_last()) + (digits.last() as int - '0' as int)
    }
}

/// The decimal notation of a number is made of digits, has no superfluous zero in front, and
/// writes the number.
pub proof fn law_decimal_reads_back(n: nat)
    ensures
        decimal_value(decimal(n)) == n,
        decimal(n).len() > 0,
        decimal(n).len() > 1 ==> decimal(n)[0] != '0',
        n > 0 ==> decimal(n)[0] != '0',
        forall|i: int| 0 <= i < decimal(n).len() ==> '0' <= #[trigger] decimal(n)[i] <= '9',
    decreases n,
{
    reveal_with_fuel(decimal_value, 2);
    let d = decimal(n);
    if n < 10 {
        assert(d.drop_last() =~= Seq::empty());
    } else {
        law_decimal_reads_back(n / 10);
        let before = decimal(n / 10);
        assert(d.drop_last() =~= before);
        assert forall|i: int| 0 <= i < d.len() implies '0' <= #[trigger] d[i] <= '9' by {
            if i < before.len() {
                assert(d[i] == before[i]);
            }
        }
        assert(d[0] == before[0]);
    }
}

/// An aligned text fills its width with blanks on one side, and is not cut.
pub proof fn law_alignment(s: Seq<char>, width: nat)
    ensures
        right_aligned(s, width).len() == (if s.len() < width {
            width
        } else {
            s.len()
        }),
        left_aligned(s, width).len() == right_aligned(s, width).len(),
        s.is_prefix_of(left_aligned(s, width)),
        s.is_suffix_of(right_aligned(s, width)),
        forall|i: int|
            0 <= i < right_aligned(s, width).len() - s.len() ==> #[trigger] right_aligned(
                s,
                width,
            )[i] == ' ',
        forall|i: int|
            s.len() <= i < left_aligned(s, width).len() ==> #[trigger] left_aligned(s, width)[i]
                == ' ',
{
    let r = right_aligned(s, width);
    let l = left_aligned(s, width);
    assert(s =~= l.subrange(0, s.len() as int));
    assert(s =~= r.subrange(r.len() - s.len(), r.len() as int));
}

/// A line without the carriage return that may end it.
pub open spec fn without_return(line: Seq<char>) -> Seq<char> {
    if line.len() > 0 && line.last() == '\r' {
        line.drop_last()
    } else {
        line
    }
}

/// The lines of `s`. A line feed, or a carriage return and a line feed, ends a line;
/// the last line need not be ended.
pub open spec fn lines(s: Seq<char>) -> Seq<Seq<char>> {
    let pieces = split(s, '\n');
    let ended = pieces.drop_last().map_values(|line: Seq<char>| without_return(line));
    if pieces.last().len() == 0 {
        ended
    } else {
        ended.push(pieces.last())
    }
}

/// The digit `d` as a character.
fn digit_char(d: u8) -> (c: char)
    requires
        d < 10,
    ensures
        c == digit(d as nat),
{
    (48 + d) as char
}

/// Appends the decimal notation of `n`.
pub fn push_decimal(out: &mut String, n: u64)
    ensures
        final(out)@ == old(out)@ + decimal(n as nat),
    decreases n,
{
    if n >= 10 {
        push_decimal(out, n / 10);
    }
    out.push(digit_char((n % 10) as u8));
    proof {
        assert(out@ =~= old(out)@ + decimal(n as nat));
    }
}

/// Appends `c` as often as `count` says.
pub fn push_repeated(out: &mut String, c: char, count: usize)
    ensures
        final(out)@ == old(out)@ + repeated(c, count as nat),
{
    let mut i: usize = 0;
    proof {
        assert(out@ =~= old(out)@ + repeated(c, 0));
    }
    while i < count
        invariant
            i <= count,
            out@ == old(out)@ + repeated(c, i as nat),
        decreases count - i,
    {
        out.push(c);
        i = i + 1;
        proof {
            assert(out@ =~= old(out)@ + repeated(c, i as nat));
        }
    }
}

/// `s` padded on the left to `width` characters.
pub fn align_right(s: &str, width: usize) -> (r: String)
    ensures
        r@ == right_aligned(s@, width as nat),
{
    let mut r: String = String::new();
    let len: usize = s.unicode_len();
    if len < width {
        push_repeated(&mut r, ' ', width - len);
    }
    r.append(s);
    proof {
        assert(r@ =~= right_aligned(s@, width as nat));
    }
    r
}

/// `s` padded on the right to `width` characters.
pub fn align_left(s: &str, width: usize) -> (r: String)
    ensures
        r@ == left_aligned(s@, width as nat),
{
    let mut r: String = s.to_owned();
    let len: usize = s.unicode_len();
    if len < width {
        push_repeated(&mut r, ' ', width - len);
    }
    r
}

/// Whether two texts read the same.
pub fn same(a: &str, b: &str) -> (r: bool)
    ensures
        r == (a@ == b@),
{
    a.to_owned() == b.to_owned()
}

/// The characters of `s`.
pub fn characters(s: &str) -> (r: Vec<char>)
    ensures
        r@ == s@,
{
    let mut r: Vec<char> = Vec::new();
    for c in it: s.chars()
        invariant
            it.seq() == s@,
            r@ == s@.take(it.index() as int),
    {
        proof {
            assert(s@.take(it.index() + 1) =~= s@.take(it.index() as int).push(c));
        }
        r.push(c);
    }
    proof {
        assert(s@.take(s@.len() as int) =~= s@);
    }
    r
}

/// Whether `s` begins with `prefix`.
pub fn starts_with(s: &str, prefix: &str) -> (r: bool)
    ensures
        r == prefix@.is_prefix_of(s@),
{
    let a: Vec<char> = characters(s);
    let b: Vec<char> = characters(prefix);
    if a.len() < b.len() {
        return false;
    }
    let mut i: usize = 0;
    while i < b.len()
        invariant
            a@ == s@,
            b@ == prefix@,
            b.len() <= a.len(),
            i <= b.len(),
            forall|j: int| 0 <= j < i ==> a@[j] == b@[j],
        decreases b.len() - i,
    {
        if a[i] != b[i] {
            proof {
                assert(prefix@[i as int] != s@.take(prefix@.len() as int)[i as int]);
            }
            return false;
        }
        i = i + 1;
    }
    proof {
        assert(prefix@ =~= s@.take(prefix@.len() as int));
    }
    true
}

proof fn lemma_views_push(v: Seq<String>, s: String)
    ensures
        views(v.push(s)) == views(v).push(s@),
{
    assert(views(v.push(s)) =~= views(v).push(s@));
}

/// Splits `s` at every separator.
pub fn split_at_each(s: &str, separator: char) -> (r: Vec<String>)
    ensures
        views(r@) == split(s@, separator),
        r@.len() > 0,
{
    let chars: Vec<char> = characters(s);
    let mut done: Vec<String> = Vec::new();
    let mut piece: String = String::new();
    let mut i: usize = 0;
    proof {
        assert(s@.take(0) =~= Seq::empty());
        assert(views(done@).push(piece@) =~= split(s@.take(0), separator));
    }
    while i < chars.len()
        invariant
            chars@ == s@,
            i <= chars.len(),
            views(done@).push(piece@) == split(s@.take(i as int), separator),
        decreases chars.len() - i,
    {
        let c: char = chars[i];
        let ghost before = s@.take(i as int);
        let ghost after = s@.take(i + 1);
        proof {
            assert(after.drop_last() =~= before);
            assert(after.last() == c);
        }
        if c == separator {
            proof {
                lemma_views_push(done@, piece);
            }
            done.push(piece);
            piece = String::new();
        } else {
            let ghost old_piece = piece@;
            piece.push(c);
            proof {
                let p = views(done@).push(old_piece);
                assert(p.drop_last() =~= views(done@));
            }
        }
        i = i + 1;
        proof {
            assert(views(done@).push(piece@) =~= split(after, separator));
        }
    }
    proof {
        assert(s@.take(s@.len() as int) =~= s@);
        lemma_views_push(done@, piece);
    }
    done.push(piece);
    done
}

/// The lines of `s`.
pub fn split_lines(s: &str) -> (r: Vec<String>)
    ensures
        views(r@) == lines(s@),
{
    let pieces: Vec<String> = split_at_each(s, '\n');
    let ghost all = views(pieces@);
    let ghost ended = all.drop_last().map_values(|line: Seq<char>| without_return(line));
    let mut r: Vec<String> = Vec::new();
    let mut i: usize = 0;
    while i < pieces.len() - 1
        invariant
            pieces.len() > 0,
            all == views(pieces@),
            ended == all.drop_last().map_values(|line: Seq<char>| without_return(line)),
            i <= pieces.len() - 1,
            views(r@) == ended.take(i as int),
        decreases pieces.len() - 1 - i,
    {
        let line: String = strip_return(&pieces[i]);
        proof {
            assert(all[i as int] == pieces@[i as int]@);
            lemma_views_push(r@, line);
            assert(ended.take(i + 1) =~= ended.take(i as int).push(ended[i as int]));
        }
        r.push(line);
        i = i + 1;
    }
    let last: String = pieces[pieces.len() - 1].clone();
    proof {
        assert(ended.take(ended.len() as int) =~= ended);
        assert(all.last() == last@);
        lemma_views_push(r@, last);
    }
    if !last.as_str().is_empty() {
        r.push(last);
    }
    r
}

fn strip_return(line: &String) -> (r: String)
    ensures
        r@ == without_return(line@),
{
    let chars: Vec<char> = characters(line.as_str());
    if chars.len() == 0 || chars[chars.len() - 1] != '\r' {
        return line.clone();
    }
    let r: String = line.as_str().substring_char(0, chars.len() - 1).to_owned();
    proof {
        assert(line@.subrange(0, line@.len() - 1) =~= line@.drop_last());
    }
    r
}

} // verus!
