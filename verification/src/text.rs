//! Operations on text, stated over sequences of characters.

use vstd::prelude::*;

verus! {

/// `String::push` appends the given character to the end of the string.
pub assume_specification[ String::push ](s: &mut String, c: char)
    ensures
        final(s)@ == old(s)@.push(c),
;

/// The characters of a string, one by one.
pub fn chars_of(s: &str) -> (v: Vec<char>)
    ensures
        v@ == s@,
{
    let mut v: Vec<char> = Vec::new();
    for c in it: s.chars()
        invariant
            it.seq() == s@,
            v@ == s@.take(it.index() as int),
    {
        v.push(c);
        assert(s@.take(it.index() + 1) =~= s@.take(it.index() as int).push(c));
    }
    assert(s@.take(s@.len() as int) =~= s@);
    v
}

/// The string made of the characters of `v` from `from` up to but not at `to`.
pub fn text_between(v: &Vec<char>, from: usize, to: usize) -> (s: String)
    requires
        from <= to <= v@.len(),
    ensures
        s@ == v@.subrange(from as int, to as int),
{
    let mut s = String::new();
    let mut i: usize = from;
    while i < to
        invariant
            from <= i <= to <= v@.len(),
            s@ == v@.subrange(from as int, i as int),
        decreases to - i,
    {
        s.push(v[i]);
        i += 1;
        assert(s@ =~= v@.subrange(from as int, i as int));
    }
    s
}

/// Whether two strings hold the same characters.
pub fn same_text(a: &str, b: &str) -> (r: bool)
    ensures
        r == (a@ == b@),
{
    a.to_owned() == b.to_owned()
}

/// Whether `s` begins with `prefix`.
pub open spec fn begins(s: Seq<char>, prefix: Seq<char>) -> bool {
    prefix.len() <= s.len() && s.take(prefix.len() as int) == prefix
}

/// Whether `s` ends with `suffix`.
pub open spec fn ends(s: Seq<char>, suffix: Seq<char>) -> bool {
    suffix.len() <= s.len() && s.skip(s.len() - suffix.len()) == suffix
}

/// Whether the characters of `v` from `at` on begin with those of `word`.
fn word_at(v: &Vec<char>, at: usize, word: &Vec<char>) -> (r: bool)
    requires
        at <= v@.len(),
    ensures
        r == begins(v@.skip(at as int), word@),
{
    let n = v.len();
    if n - at < word.len() {
        return false;
    }
    let mut i: usize = 0;
    while i < word.len()
        invariant
            n == v@.len(),
            at <= n,
            i <= word@.len() <= n - at,
            v@.skip(at as int).take(i as int) == word@.take(i as int),
        decreases word@.len() - i,
    {
        if v[at + i] != word[i] {
            proof {
                let s = v@.skip(at as int);
                assert(s.take(word@.len() as int)[i as int] == v@[at + i]);
            }
            return false;
        }
        i += 1;
        assert(v@.skip(at as int).take(i as int) =~= word@.take(i as int));
    }
    assert(word@.take(i as int) =~= word@);
    true
}

/// Whether the characters of `v` begin with those of `prefix`.
pub fn begins_with(v: &Vec<char>, prefix: &str) -> (r: bool)
    ensures
        r == begins(v@, prefix@),
{
    let word = chars_of(prefix);
    assert(v@.skip(0) =~= v@);
    word_at(v, 0, &word)
}

/// Whether the characters of `v` end with those of `suffix`.
pub fn ends_with(v: &Vec<char>, suffix: &str) -> (r: bool)
    ensures
        r == ends(v@, suffix@),
{
    let word = chars_of(suffix);
    if v.len() < word.len() {
        return false;
    }
    let at = v.len() - word.len();
    let r = word_at(v, at, &word);
    assert(v@.skip(at as int).take(word@.len() as int) =~= v@.skip(at as int));
    r
}

/// Whether a character is white space, as Unicode has it.
pub open spec fn is_white(c: char) -> bool {
    let u = c as u32;
    ||| 0x9 <= u <= 0xd
    ||| u == 0x20
    ||| u == 0x85
    ||| u == 0xa0
    ||| u == 0x1680
    ||| 0x2000 <= u <= 0x200a
    ||| u == 0x2028
    ||| u == 0x2029
    ||| u == 0x202f
    ||| u == 0x205f
    ||| u == 0x3000
}

/// Whether a character is white space.
pub fn is_white_space(c: char) -> (r: bool)
    ensures
        r == is_white(c),
{
    let u: u32 = c as u32;
    (0x9 <= u && u <= 0xd) || u == 0x20 || u == 0x85 || u == 0xa0 || u == 0x1680 || (0x2000 <= u
        && u <= 0x200a) || u == 0x2028 || u == 0x2029 || u == 0x202f || u == 0x205f || u == 0x3000
}

/// `s` without the white space in front.
pub open spec fn trimmed_start(s: Seq<char>) -> Seq<char>
    decreases s.len(),
{
    if s.len() > 0 && is_white(s[0]) {
        trimmed_start(s.skip(1))
    } else {
        s
    }
}

/// `s` without the white space at its end.
pub open spec fn trimmed_end(s: Seq<char>) -> Seq<char>
    decreases s.len(),
{
    if s.len() > 0 && is_white(s.last()) {
        trimmed_end(s.drop_last())
    } else {
        s
    }
}

/// `s` without the white space in front and at its end.
pub open spec fn trimmed(s: Seq<char>) -> Seq<char> {
    trimmed_end(trimmed_start(s))
}

/// Where the text within the white space begins and ends.
fn trim_bounds(v: &Vec<char>) -> (r: (usize, usize))
    ensures
        r.0 <= r.1 <= v@.len(),
        v@.subrange(r.0 as int, r.1 as int) == trimmed(v@),
{
    let mut from: usize = 0;
    assert(v@.skip(0) =~= v@);
    while from < v.len() && is_white_space(v[from])
        invariant
            from <= v@.len(),
            trimmed_start(v@) == trimmed_start(v@.skip(from as int)),
        decreases v@.len() - from,
    {
        assert(v@.skip(from as int).skip(1) =~= v@.skip(from + 1));
        from += 1;
    }
    let mut to: usize = v.len();
    assert(v@.skip(from as int) =~= v@.subrange(from as int, to as int));
    while to > from && is_white_space(v[to - 1])
        invariant
            from <= to <= v@.len(),
            trimmed(v@) == trimmed_end(v@.subrange(from as int, to as int)),
        decreases to,
    {
        assert(v@.subrange(from as int, to as int).drop_last() =~= v@.subrange(
            from as int,
            to - 1,
        ));
        to -= 1;
    }
    (from, to)
}

/// The characters of `v` without the white space in front and at the end.
pub fn trim_chars(v: &Vec<char>) -> (r: Vec<char>)
    ensures
        r@ == trimmed(v@),
{
    let (from, to) = trim_bounds(v);
    let mut r: Vec<char> = Vec::new();
    let mut i: usize = from;
    while i < to
        invariant
            from <= i <= to <= v@.len(),
            r@ == v@.subrange(from as int, i as int),
        decreases to - i,
    {
        r.push(v[i]);
        i += 1;
        assert(r@ =~= v@.subrange(from as int, i as int));
    }
    r
}

/// The text of `s` without the white space in front and at the end.
pub fn trim(s: &str) -> (r: String)
    ensures
        r@ == trimmed(s@),
{
    let v = chars_of(s);
    let (from, to) = trim_bounds(&v);
    text_between(&v, from, to)
}

/// The pieces of `s` between the separators.
pub open spec fn pieces(s: Seq<char>, separator: char) -> Seq<Seq<char>>
    decreases s.len(),
{
    if s.len() == 0 {
        seq![Seq::empty()]
    } else {
        let before = pieces(s.drop_last(), separator);
        if s.last() == separator {
            before.push(Seq::empty())
        } else {
            before.drop_last().push(before.last().push(s.last()))
        }
    }
}

/// Splits `s` at each separator.
pub fn split(s: &str, separator: char) -> (r: Vec<String>)
    ensures
        r.deep_view() == pieces(s@, separator),
        r@.len() > 0,
{
    let mut done: Vec<String> = Vec::new();
    let mut current = String::new();
    assert(done.deep_view().push(current@) =~= pieces(Seq::empty(), separator));
    assert(s@.take(0) =~= Seq::<char>::empty());
    for c in it: s.chars()
        invariant
            it.seq() == s@,
            done.deep_view().push(current@) == pieces(s@.take(it.index() as int), separator),
    {
        let ghost front = s@.take(it.index() as int);
        let ghost known = done.deep_view();
        assert(s@.take(it.index() + 1).drop_last() =~= front);
        assert(known.push(current@).drop_last() =~= known);
        if c == separator {
            let ghost last = current@;
            done.push(current);
            current = String::new();
            assert(done.deep_view() =~= known.push(last));
        } else {
            current.push(c);
        }
    }
    assert(s@.take(s@.len() as int) =~= s@);
    let ghost known = done.deep_view();
    let ghost last = current@;
    done.push(current);
    assert(done.deep_view() =~= known.push(last));
    done
}

/// `s` without a carriage return at its end.
pub open spec fn without_return(s: Seq<char>) -> Seq<char> {
    if s.len() > 0 && s.last() == '\r' {
        s.drop_last()
    } else {
        s
    }
}

/// The lines of `s`, without what ends them; the last one need not be ended.
pub open spec fn lines_of(s: Seq<char>) -> Seq<Seq<char>> {
    let parts = pieces(s, '\n');
    let ended = parts.drop_last().map_values(|line: Seq<char>| without_return(line));
    if parts.last().len() == 0 {
        ended
    } else {
        ended.push(parts.last())
    }
}

/// Splits `s` into its lines.
pub fn lines(s: &str) -> (r: Vec<String>)
    ensures
        r.deep_view() == lines_of(s@),
{
    let parts = split(s, '\n');
    let ghost wanted = pieces(s@, '\n');
    let n = parts.len();
    let mut r: Vec<String> = Vec::new();
    let mut i: usize = 0;
    while i < n - 1
        invariant
            0 <= i <= n - 1,
            n == parts@.len(),
            parts.deep_view() == wanted,
            r@.len() == i,
            forall|j: int|
                0 <= j < i ==> (#[trigger] r@[j])@ == without_return(wanted[j]),
        decreases n - i,
    {
        let v = chars_of(parts[i].as_str());
        assert(v@ == wanted[i as int]);
        let line = if v.len() > 0 && v[v.len() - 1] == '\r' {
            let line = text_between(&v, 0, v.len() - 1);
            assert(line@ =~= v@.drop_last());
            line
        } else {
            let line = text_between(&v, 0, v.len());
            assert(line@ =~= v@);
            line
        };
        r.push(line);
        i += 1;
    }
    let ghost ended = wanted.drop_last().map_values(|line: Seq<char>| without_return(line));
    assert(r.deep_view() =~= ended);
    let last = parts[n - 1].clone();
    assert(last@ == wanted.last());
    if !last.as_str().is_empty() {
        r.push(last);
        assert(r.deep_view() =~= ended.push(wanted.last()));
    }
    r
}

/// `s` with each occurrence of `pattern`, from left to right, replaced by `with`. An empty
/// pattern occurs before each character and at the end.
pub open spec fn replaced(s: Seq<char>, pattern: Seq<char>, with: Seq<char>) -> Seq<char>
    decreases s.len(),
{
    if pattern.len() == 0 {
        if s.len() == 0 {
            with
        } else {
            with.push(s[0]) + replaced(s.skip(1), pattern, with)
        }
    } else if s.len() == 0 {
        s
    } else if begins(s, pattern) {
        with + replaced(s.skip(pattern.len() as int), pattern, with)
    } else {
        seq![s[0]] + replaced(s.skip(1), pattern, with)
    }
}

/// Replaces each occurrence of `pattern` in `s`, from left to right, by `with`.
pub fn replace(s: &str, pattern: &str, with: &str) -> (r: String)
    ensures
        r@ == replaced(s@, pattern@, with@),
{
    let v = chars_of(s);
    let word = chars_of(pattern);
    let mut r = String::new();
    let mut i: usize = 0;
    assert(v@.skip(0) =~= v@);
    assert(r@ + replaced(v@.skip(0), pattern@, with@) =~= replaced(v@, pattern@, with@));
    while i < v.len()
        invariant
            i <= v@.len(),
            v@ == s@,
            word@ == pattern@,
            r@ + replaced(v@.skip(i as int), pattern@, with@) == replaced(s@, pattern@, with@),
        decreases v@.len() - i,
    {
        let ghost before = r@;
        let ghost rest = v@.skip(i as int);
        if word.len() == 0 {
            r.append(with);
            r.push(v[i]);
            assert(rest.skip(1) =~= v@.skip(i + 1));
            i += 1;
            assert(r@ + replaced(v@.skip(i as int), pattern@, with@) =~= before + (with@.push(
                rest[0],
            ) + replaced(v@.skip(i as int), pattern@, with@)));
        } else if word_at(&v, i, &word) {
            r.append(with);
            assert(rest.skip(word@.len() as int) =~= v@.skip(i + word@.len()));
            i += word.len();
            assert(r@ + replaced(v@.skip(i as int), pattern@, with@) =~= before + (with@
                + replaced(v@.skip(i as int), pattern@, with@)));
        } else {
            r.push(v[i]);
            assert(rest.skip(1) =~= v@.skip(i + 1));
            i += 1;
            assert(r@ + replaced(v@.skip(i as int), pattern@, with@) =~= before + (seq![rest[0]]
                + replaced(v@.skip(i as int), pattern@, with@)));
        }
    }
    assert(v@.skip(i as int).len() == 0);
    if word.len() == 0 {
        r.append(with);
    }
    assert(r@ =~= replaced(s@, pattern@, with@));
    r
}

/// The character of a digit below ten.
pub open spec fn digit_char(d: nat) -> char {
    ('0' as u32 + d) as char
}

/// A number in decimal digits.
pub open spec fn decimal(n: nat) -> Seq<char>
    decreases n,
{
    if n < 10 {
        seq![digit_char(n)]
    } else {
        decimal(n / 10).push(digit_char(n % 10))
    }
}

/// Writes a number in decimal digits.
pub fn decimal_text(n: u128) -> (r: String)
    ensures
        r@ == decimal(n as nat),
    decreases n,
{
    let mut r = if n < 10 {
        String::new()
    } else {
        decimal_text(n / 10)
    };
    let d: u8 = (n % 10) as u8;
    r.push((48u8 + d) as char);
    assert(r@ =~= decimal(n as nat));
    r
}

/// A text begins with its front, and with nothing else: what begins with `prefix` is `prefix` with
/// something behind it.
pub proof fn beginnings_are_fronts(s: Seq<char>, prefix: Seq<char>)
    ensures
        begins(s, prefix) <==> exists|rest: Seq<char>| s == #[trigger] (prefix + rest),
{
    if begins(s, prefix) {
        assert(s =~= prefix + s.skip(prefix.len() as int));
    }
    assert forall|rest: Seq<char>| s == #[trigger] (prefix + rest) implies begins(s, prefix) by {
        assert(s.take(prefix.len() as int) =~= prefix);
    }
}

/// A text ends with its back, and with nothing else: what ends with `suffix` is `suffix` with
/// something in front of it.
pub proof fn endings_are_backs(s: Seq<char>, suffix: Seq<char>)
    ensures
        ends(s, suffix) <==> exists|rest: Seq<char>| s == #[trigger] (rest + suffix),
{
    if ends(s, suffix) {
        assert(s =~= s.take(s.len() - suffix.len()) + suffix);
    }
    assert forall|rest: Seq<char>| s == #[trigger] (rest + suffix) implies ends(s, suffix) by {
        assert(s.skip(s.len() - suffix.len()) =~= suffix);
    }
}

/// Whether a text is nothing but white space.
pub open spec fn all_white(s: Seq<char>) -> bool {
    forall|i: int| 0 <= i < s.len() ==> is_white(#[trigger] s[i])
}

/// Whether a text neither begins nor ends with white space.
pub open spec fn is_tight(s: Seq<char>) -> bool {
    s.len() > 0 ==> !is_white(s[0]) && !is_white(s[s.len() - 1])
}

proof fn lemma_trim_front(front: Seq<char>, s: Seq<char>)
    requires
        all_white(front),
    ensures
        trimmed_start(front + s) == trimmed_start(s),
    decreases front.len(),
{
    if front.len() == 0 {
        assert(front + s =~= s);
    } else {
        assert(is_white(front[0]));
        assert((front + s).skip(1) =~= front.skip(1) + s);
        assert forall|i: int| 0 <= i < front.skip(1).len() implies is_white(
            #[trigger] front.skip(1)[i],
        ) by {
            assert(is_white(front[i + 1]));
        }
        lemma_trim_front(front.skip(1), s);
    }
}

proof fn lemma_trim_back(s: Seq<char>, back: Seq<char>)
    requires
        all_white(back),
    ensures
        trimmed_end(s + back) == trimmed_end(s),
    decreases back.len(),
{
    if back.len() == 0 {
        assert(s + back =~= s);
    } else {
        assert(is_white(back[back.len() - 1]));
        assert((s + back).drop_last() =~= s + back.drop_last());
        lemma_trim_back(s, back.drop_last());
    }
}

/// White space round a text goes, and nothing else: what is left is the text.
pub proof fn trimming_leaves_the_text(front: Seq<char>, s: Seq<char>, back: Seq<char>)
    requires
        all_white(front),
        is_tight(s),
        all_white(back),
    ensures
        trimmed(front + s + back) == s,
{
    assert(front + s + back =~= front + (s + back));
    lemma_trim_front(front, s + back);
    if s.len() == 0 {
        assert(s + back =~= back + s);
        lemma_trim_front(back, s);
    } else {
        assert((s + back)[0] == s[0]);
        lemma_trim_back(s, back);
    }
}

/// Every text is what trimming leaves of it, with white space on both sides.
pub proof fn trimming_takes_white_space_only(s: Seq<char>) -> (r: (Seq<char>, Seq<char>))
    ensures
        all_white(r.0),
        is_tight(trimmed(s)),
        all_white(r.1),
        s == r.0 + trimmed(s) + r.1,
    decreases s.len(),
{
    if s.len() > 0 && is_white(s[0]) {
        let (front, back) = trimming_takes_white_space_only(s.skip(1));
        let wide = seq![s[0]] + front;
        assert forall|i: int| 0 <= i < wide.len() implies is_white(#[trigger] wide[i]) by {
            if i > 0 {
                assert(is_white(front[i - 1]));
            }
        }
        assert(s =~= seq![s[0]] + s.skip(1));
        assert(s =~= wide + trimmed(s) + back);
        (wide, back)
    } else {
        let back = lemma_split_end(s);
        let empty = Seq::<char>::empty();
        assert(s =~= empty + trimmed(s) + back);
        (empty, back)
    }
}

proof fn lemma_split_end(s: Seq<char>) -> (back: Seq<char>)
    ensures
        all_white(back),
        s == trimmed_end(s) + back,
        trimmed_end(s).len() > 0 ==> !is_white(trimmed_end(s)[trimmed_end(s).len() - 1])
            && trimmed_end(s)[0] == s[0],
    decreases s.len(),
{
    if s.len() > 0 && is_white(s.last()) {
        let back = lemma_split_end(s.drop_last());
        let wide = back.push(s.last());
        assert(s =~= s.drop_last().push(s.last()));
        assert((trimmed_end(s) + back).push(s.last()) =~= trimmed_end(s) + wide);
        wide
    } else {
        assert(s =~= s + Seq::<char>::empty());
        Seq::empty()
    }
}

/// Texts put one behind the other, with a separator between any two.
pub open spec fn joined(parts: Seq<Seq<char>>, separator: char) -> Seq<char>
    decreases parts.len(),
{
    if parts.len() == 0 {
        Seq::empty()
    } else if parts.len() == 1 {
        parts[0]
    } else {
        joined(parts.drop_last(), separator).push(separator) + parts.last()
    }
}

/// The pieces of a text hold no separator, and joined they are the text again.
pub proof fn pieces_join_again(s: Seq<char>, separator: char)
    ensures
        pieces(s, separator).len() > 0,
        joined(pieces(s, separator), separator) == s,
        forall|i: int|
            0 <= i < pieces(s, separator).len() ==> !(#[trigger] pieces(s, separator)[i]).contains(
                separator,
            ),
    decreases s.len(),
{
    let all = pieces(s, separator);
    if s.len() == 0 {
        assert(all[0].len() == 0);
    } else {
        let front = s.drop_last();
        let before = pieces(front, separator);
        pieces_join_again(front, separator);
        assert(s =~= front.push(s.last()));
        if s.last() == separator {
            assert(all.drop_last() =~= before);
            assert(joined(all, separator) =~= s);
        } else {
            let last = before.last().push(s.last());
            assert(all.drop_last() =~= before.drop_last());
            assert(before[before.len() - 1] == before.last());
            assert(joined(all, separator) =~= joined(before, separator).push(s.last()));
            assert forall|i: int| 0 <= i < all.len() implies !(#[trigger] all[i]).contains(
                separator,
            ) by {
                if i < all.len() - 1 {
                    assert(all[i] == before[i]);
                } else if last.contains(separator) {
                    let j = choose|j: int| 0 <= j < last.len() && last[j] == separator;
                    assert(before.last()[j] == separator);
                }
            }
        }
    }
}

proof fn lemma_one_piece(s: Seq<char>, separator: char)
    requires
        !s.contains(separator),
    ensures
        pieces(s, separator) == seq![s],
    decreases s.len(),
{
    if s.len() > 0 {
        let front = s.drop_last();
        assert forall|i: int| 0 <= i < front.len() implies front[i] != separator by {
            assert(s.contains(s[i]));
        }
        assert(s.contains(s[s.len() - 1]));
        lemma_one_piece(front, separator);
        assert(front.push(s.last()) =~= s);
        assert(pieces(s, separator) =~= seq![s]);
    } else {
        assert(s =~= Seq::<char>::empty());
    }
}

proof fn lemma_piece_behind(s: Seq<char>, last: Seq<char>, separator: char)
    requires
        !last.contains(separator),
    ensures
        pieces(s.push(separator) + last, separator) == pieces(s, separator).push(last),
    decreases last.len(),
{
    let all = s.push(separator) + last;
    if last.len() == 0 {
        assert(all =~= s.push(separator));
        assert(all.drop_last() =~= s);
        assert(last =~= Seq::<char>::empty());
    } else {
        let front = last.drop_last();
        assert forall|i: int| 0 <= i < front.len() implies front[i] != separator by {
            assert(last.contains(last[i]));
        }
        assert(last.contains(last[last.len() - 1]));
        assert(all.drop_last() =~= s.push(separator) + front);
        lemma_piece_behind(s, front, separator);
        assert(front.push(last.last()) =~= last);
        assert(pieces(all, separator) =~= pieces(s, separator).push(last));
    }
}

/// Splitting undoes joining.
pub proof fn joined_texts_are_the_pieces(parts: Seq<Seq<char>>, separator: char)
    requires
        parts.len() > 0,
        forall|i: int| 0 <= i < parts.len() ==> !(#[trigger] parts[i]).contains(separator),
    ensures
        pieces(joined(parts, separator), separator) == parts,
    decreases parts.len(),
{
    if parts.len() == 1 {
        lemma_one_piece(parts[0], separator);
        assert(seq![parts[0]] =~= parts);
    } else {
        let front = parts.drop_last();
        joined_texts_are_the_pieces(front, separator);
        assert(!parts[parts.len() - 1].contains(separator));
        lemma_piece_behind(joined(front, separator), parts.last(), separator);
        assert(front.push(parts.last()) =~= parts);
    }
}

proof fn lemma_piece_in_front(first: Seq<char>, rest: Seq<char>, separator: char)
    requires
        !first.contains(separator),
    ensures
        pieces(first.push(separator) + rest, separator) == seq![first] + pieces(rest, separator),
        pieces(rest, separator).len() > 0,
    decreases rest.len(),
{
    let all = first.push(separator) + rest;
    lemma_one_piece(first, separator);
    if rest.len() == 0 {
        assert(all =~= first.push(separator));
        assert(all.drop_last() =~= first);
        assert(pieces(all, separator) =~= seq![first] + pieces(rest, separator));
    } else {
        let front = rest.drop_last();
        lemma_piece_in_front(first, front, separator);
        assert(all.drop_last() =~= first.push(separator) + front);
        assert(pieces(all, separator) =~= seq![first] + pieces(rest, separator));
    }
}

/// What stands before the first line feed is the first line, without a carriage return at its end;
/// the lines of what follows come behind it.
pub proof fn lines_follow_each_other(first: Seq<char>, rest: Seq<char>)
    requires
        !first.contains('\n'),
    ensures
        !(first.len() > 0 && first.last() == '\r') ==> lines_of(first.push('\n') + rest) == seq![first]
            + lines_of(rest),
        lines_of(first.push('\r').push('\n') + rest) == seq![first] + lines_of(rest),
{
    lemma_piece_in_front(first, rest, '\n');
    let with_return = first.push('\r');
    assert(!with_return.contains('\n')) by {
        if with_return.contains('\n') {
            let i = choose|i: int| 0 <= i < with_return.len() && with_return[i] == '\n';
            assert(first.contains(first[i]));
        }
    }
    lemma_piece_in_front(with_return, rest, '\n');
    assert(with_return.drop_last() =~= first);
    let parts = pieces(rest, '\n');
    assert((seq![first] + parts).last() == parts.last());
    assert((seq![with_return] + parts).last() == parts.last());
    if !(first.len() > 0 && first.last() == '\r') {
        assert(lines_of(first.push('\n') + rest) =~= seq![first] + lines_of(rest));
    }
    assert(lines_of(with_return.push('\n') + rest) =~= seq![first] + lines_of(rest));
}

/// A text without a line feed is a line, as it stands; without any character it has no line.
pub proof fn last_lines_need_no_end(s: Seq<char>)
    requires
        !s.contains('\n'),
    ensures
        lines_of(s) == if s.len() == 0 {
            Seq::empty()
        } else {
            seq![s]
        },
{
    lemma_one_piece(s, '\n');
    assert(lines_of(s) =~= if s.len() == 0 {
        Seq::empty()
    } else {
        seq![s]
    });
}

/// Where a pattern does not occur, nothing is replaced.
pub proof fn replacing_nothing_changes_nothing(s: Seq<char>, pattern: Seq<char>, with: Seq<char>)
    requires
        pattern.len() > 0,
        forall|i: int| 0 <= i <= s.len() ==> !begins(#[trigger] s.skip(i), pattern),
    ensures
        replaced(s, pattern, with) == s,
    decreases s.len(),
{
    if s.len() > 0 {
        assert(s.skip(0) =~= s);
        assert(!begins(s.skip(0), pattern));
        let rest = s.skip(1);
        assert forall|i: int| 0 <= i <= rest.len() implies !begins(#[trigger] rest.skip(i), pattern) by {
            assert(rest.skip(i) =~= s.skip(i + 1));
        }
        replacing_nothing_changes_nothing(rest, pattern, with);
        assert(seq![s[0]] + rest =~= s);
    }
}

/// The first occurrence of a pattern is replaced, what stands before it stays, and replacing goes on
/// behind it.
pub proof fn first_occurrence_is_replaced(
    before: Seq<char>,
    pattern: Seq<char>,
    behind: Seq<char>,
    with: Seq<char>,
)
    requires
        pattern.len() > 0,
        forall|i: int|
            0 <= i < before.len() ==> !begins(
                #[trigger] (before + pattern + behind).skip(i),
                pattern,
            ),
    ensures
        replaced(before + pattern + behind, pattern, with) == before + with + replaced(
            behind,
            pattern,
            with,
        ),
    decreases before.len(),
{
    let s = before + pattern + behind;
    if before.len() == 0 {
        assert(s =~= pattern + behind);
        assert(s.take(pattern.len() as int) =~= pattern);
        assert(s.skip(pattern.len() as int) =~= behind);
        assert(before + with =~= with);
    } else {
        assert(s.skip(0) =~= s);
        assert(!begins(s.skip(0), pattern));
        let rest = before.skip(1);
        let next = rest + pattern + behind;
        assert(s.skip(1) =~= next);
        assert forall|i: int| 0 <= i < rest.len() implies !begins(#[trigger] next.skip(i), pattern) by {
            assert(next.skip(i) =~= s.skip(i + 1));
        }
        first_occurrence_is_replaced(rest, pattern, behind, with);
        assert(seq![before[0]] + (rest + with + replaced(behind, pattern, with)) =~= before + with
            + replaced(behind, pattern, with));
    }
}

/// An empty pattern occurs round every character.
pub proof fn empty_patterns_occur_everywhere(s: Seq<char>, c: char, with: Seq<char>)
    ensures
        replaced(Seq::empty(), Seq::empty(), with) == with,
        replaced(s.push(c), Seq::empty(), with) == replaced(s, Seq::empty(), with).push(c) + with,
    decreases s.len(),
{
    let none = Seq::<char>::empty();
    if s.len() == 0 {
        assert(s.push(c).skip(1) =~= none);
        assert(s =~= none);
        assert(replaced(none, none, with) == with);
        assert(replaced(s.push(c), none, with) =~= with.push(c) + with);
    } else {
        assert(s.push(c).skip(1) =~= s.skip(1).push(c));
        empty_patterns_occur_everywhere(s.skip(1), c, with);
        assert(replaced(s.push(c), none, with) =~= replaced(s, none, with).push(c) + with);
    }
}

} // verus!
