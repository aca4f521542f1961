//! Character-sequence utilities: searching, splitting on a separator,
//! joining with a separator, and trimming, together with the laws that
//! relate them. The document codec is proved on top of these.
use vstd::prelude::*;
use vstd::string::*;

verus! {

/// An ASCII whitespace character.
pub open spec fn is_space(c: char) -> bool {
    c == ' ' || c == '\t' || c == '\n' || c == '\r' || c == '\u{b}' || c == '\u{c}'
}

pub fn is_space_char(c: char) -> (r: bool)
    ensures
        r == is_space(c),
{
    c == ' ' || c == '\t' || c == '\n' || c == '\r' || c == '\u{b}' || c == '\u{c}'
}

/// The pattern `sep` occurs in `s` starting at position `i`.
pub open spec fn occurs_at(s: Seq<char>, sep: Seq<char>, i: int) -> bool {
    0 <= i && i + sep.len() <= s.len() && s.subrange(i, i + sep.len() as int) == sep
}

/// The first position at or after `i` where `sep` occurs in `s`.
pub open spec fn find_from(s: Seq<char>, sep: Seq<char>, i: int) -> Option<int>
    decreases s.len() - i,
{
    if sep.len() == 0 || i < 0 || i + sep.len() > s.len() {
        None
    } else if s.subrange(i, i + sep.len() as int) == sep {
        Some(i)
    } else {
        find_from(s, sep, i + 1)
    }
}

pub proof fn lemma_find_from(s: Seq<char>, sep: Seq<char>, i: int)
    requires
        0 <= i,
        sep.len() >= 1,
    ensures
        match find_from(s, sep, i) {
            Some(j) => i <= j && occurs_at(s, sep, j) && forall|k: int|
                i <= k < j ==> !occurs_at(s, sep, k),
            None => forall|k: int| i <= k ==> !occurs_at(s, sep, k),
        },
    decreases s.len() - i,
{
    if i + sep.len() > s.len() {
    } else if s.subrange(i, i + sep.len() as int) == sep {
    } else {
        lemma_find_from(s, sep, i + 1);
        assert(!occurs_at(s, sep, i));
    }
}

/// The pieces of `s` between the occurrences of `sep`, in order.
pub open spec fn split_on(s: Seq<char>, sep: Seq<char>) -> Seq<Seq<char>>
    decreases s.len(),
{
    if sep.len() == 0 {
        seq![s]
    } else {
        match find_from(s, sep, 0) {
            None => seq![s],
            Some(j) => if 0 <= j && j + sep.len() <= s.len() {
                seq![s.subrange(0, j)] + split_on(
                    s.subrange(j + sep.len() as int, s.len() as int),
                    sep,
                )
            } else {
                // find_from never reports a position out of bounds; this arm
                // only discharges the termination measure.
                seq![s]
            },
        }
    }
}

pub proof fn lemma_split_on_len(s: Seq<char>, sep: Seq<char>)
    ensures
        split_on(s, sep).len() >= 1,
    decreases s.len(),
{
    if sep.len() == 0 {
    } else {
        match find_from(s, sep, 0) {
            None => {},
            Some(j) => {
                if 0 <= j && j + sep.len() <= s.len() {
                    lemma_split_on_len(s.subrange(j + sep.len() as int, s.len() as int), sep);
                }
            },
        }
    }
}

/// The pieces joined back together with `sep` between each two.
pub open spec fn join_with(pieces: Seq<Seq<char>>, sep: Seq<char>) -> Seq<char>
    decreases pieces.len(),
{
    if pieces.len() == 0 {
        Seq::empty()
    } else if pieces.len() == 1 {
        pieces[0]
    } else {
        pieces[0] + sep + join_with(pieces.skip(1), sep)
    }
}

/// No occurrence of `sep` begins inside `piece`, even one that runs on
/// into a copy of `sep` appended after it.
pub open spec fn sep_free(piece: Seq<char>, sep: Seq<char>) -> bool {
    forall|k: int| 0 <= k < piece.len() ==> !occurs_at(piece + sep, sep, k)
}

pub proof fn lemma_single_char_sep_free(piece: Seq<char>, sep: Seq<char>)
    requires
        sep.len() == 1,
        forall|k: int| 0 <= k < piece.len() ==> piece[k] != sep[0],
    ensures
        sep_free(piece, sep),
{
    assert forall|k: int| 0 <= k < piece.len() implies !occurs_at(piece + sep, sep, k) by {
        if occurs_at(piece + sep, sep, k) {
            assert((piece + sep).subrange(k, k + 1)[0] == (piece + sep)[k]);
            assert(piece[k] == sep[0]);
        }
    }
}

/// Splitting a joined document recovers exactly the pieces, provided no
/// occurrence of the separator begins inside any piece.
pub proof fn lemma_split_of_join(pieces: Seq<Seq<char>>, sep: Seq<char>)
    requires
        sep.len() >= 1,
        pieces.len() >= 1,
        forall|i: int| 0 <= i < pieces.len() ==> sep_free(#[trigger] pieces[i], sep),
    ensures
        split_on(join_with(pieces, sep), sep) == pieces,
    decreases pieces.len(),
{
    let s = join_with(pieces, sep);
    let p0 = pieces[0];
    let ls = sep.len() as int;
    if pieces.len() == 1 {
        assert(s == p0);
        assert forall|k: int| 0 <= k implies !occurs_at(s, sep, k) by {
            if occurs_at(s, sep, k) {
                assert(s.subrange(k, k + ls) =~= (p0 + sep).subrange(k, k + ls));
                assert(occurs_at(p0 + sep, sep, k));
            }
        }
        lemma_find_from(s, sep, 0);
        assert(find_from(s, sep, 0) is None);
        assert(split_on(s, sep) =~= pieces);
    } else {
        let rest = pieces.skip(1);
        let jr = join_with(rest, sep);
        assert(s == p0 + sep + jr);
        // the occurrence inserted after the first piece
        assert(s.subrange(p0.len() as int, p0.len() + ls) =~= sep);
        assert(occurs_at(s, sep, p0.len() as int));
        // and none earlier
        assert forall|k: int| 0 <= k < p0.len() implies !occurs_at(s, sep, k) by {
            if occurs_at(s, sep, k) {
                assert(s.subrange(k, k + ls) =~= (p0 + sep).subrange(k, k + ls));
                assert(occurs_at(p0 + sep, sep, k));
                assert(sep_free(pieces[0], sep));
            }
        }
        lemma_find_from(s, sep, 0);
        let j = p0.len() as int;
        match find_from(s, sep, 0) {
            None => {
                assert(occurs_at(s, sep, j));
                assert(false);
            },
            Some(j2) => {
                if j2 < j {
                    assert(occurs_at(s, sep, j2));
                    assert(false);
                }
                if j2 > j {
                    assert(occurs_at(s, sep, j));
                    assert(false);
                }
                assert(j2 == j);
            },
        }
        assert(s.subrange(0, j) =~= p0);
        assert(s.subrange(j + ls, s.len() as int) =~= jr);
        assert(forall|i: int| 0 <= i < rest.len() ==> sep_free(#[trigger] rest[i], sep));
        lemma_split_of_join(rest, sep);
        assert(split_on(s, sep) == seq![p0] + split_on(jr, sep));
        assert(seq![p0] + rest =~= pieces);
    }
}

/// Joining the pieces of a split recovers the original sequence.
pub proof fn lemma_join_of_split(s: Seq<char>, sep: Seq<char>)
    requires
        sep.len() >= 1,
    ensures
        join_with(split_on(s, sep), sep) == s,
    decreases s.len(),
{
    lemma_find_from(s, sep, 0);
    match find_from(s, sep, 0) {
        None => {
            assert(join_with(seq![s], sep) == s);
        },
        Some(j) => {
            let ls = sep.len() as int;
            let tail = s.subrange(j + ls, s.len() as int);
            lemma_join_of_split(tail, sep);
            lemma_split_on_len(tail, sep);
            let pieces = seq![s.subrange(0, j)] + split_on(tail, sep);
            assert(split_on(s, sep) == pieces);
            assert(pieces.len() >= 2);
            assert(pieces[0] == s.subrange(0, j));
            assert(pieces.skip(1) =~= split_on(tail, sep));
            assert(join_with(pieces, sep) == s.subrange(0, j) + sep + tail);
            assert(s.subrange(j, j + ls) == sep);
            assert(s.subrange(0, j) + sep + tail =~= s);
        },
    }
}

/// When the separator is a single character, no piece of a split
/// contains that character.
pub proof fn lemma_split_pieces_no_sep(s: Seq<char>, sep: Seq<char>)
    requires
        sep.len() == 1,
    ensures
        forall|i: int, k: int|
            0 <= i < split_on(s, sep).len() && 0 <= k < split_on(s, sep)[i].len()
                ==> split_on(s, sep)[i][k] != sep[0],
    decreases s.len(),
{
    lemma_find_from(s, sep, 0);
    match find_from(s, sep, 0) {
        None => {
            assert forall|k: int| 0 <= k < s.len() implies s[k] != sep[0] by {
                if s[k] == sep[0] {
                    assert(s.subrange(k, k + 1) =~= sep);
                    assert(occurs_at(s, sep, k));
                }
            }
        },
        Some(j) => {
            let head = s.subrange(0, j);
            let tail = s.subrange(j + 1, s.len() as int);
            lemma_split_pieces_no_sep(tail, sep);
            assert forall|k: int| 0 <= k < j implies head[k] != sep[0] by {
                if head[k] == sep[0] {
                    assert(s.subrange(k, k + 1) =~= sep);
                    assert(occurs_at(s, sep, k));
                }
            }
            let pieces = seq![head] + split_on(tail, sep);
            assert(split_on(s, sep) == pieces);
            assert forall|i: int, k: int|
                0 <= i < pieces.len() && 0 <= k < pieces[i].len() implies pieces[i][k]
                != sep[0] by {
                if i >= 1 {
                    assert(pieces[i] == split_on(tail, sep)[i - 1]);
                }
            }
        },
    }
}

/// Splitting a sequence that neither starts nor ends with the separator
/// character and never repeats it yields only non-empty pieces.
pub proof fn lemma_split_no_blank_pieces(s: Seq<char>, sep: Seq<char>)
    requires
        sep.len() == 1,
        s.len() > 0,
        s[0] != sep[0],
        s[s.len() - 1] != sep[0],
        forall|k: int| 0 <= k < s.len() - 1 ==> !(#[trigger] s[k] == sep[0] && s[k + 1] == sep[0]),
    ensures
        forall|i: int|
            0 <= i < split_on(s, sep).len() ==> #[trigger] split_on(s, sep)[i].len() > 0,
    decreases s.len(),
{
    lemma_find_from(s, sep, 0);
    match find_from(s, sep, 0) {
        None => {},
        Some(j) => {
            assert(s.subrange(j, j + 1)[0] == s[j]);
            assert(s[j] == sep[0]);
            assert(j > 0);
            assert(j < s.len() - 1);
            let tail = s.subrange(j + 1, s.len() as int);
            assert(tail[0] == s[j + 1]);
            assert(tail[0] != sep[0]);
            assert(tail[tail.len() - 1] == s[s.len() - 1]);
            assert(forall|k: int|
                0 <= k < tail.len() - 1 ==> !(#[trigger] tail[k] == sep[0] && tail[k + 1]
                    == sep[0]));
            lemma_split_no_blank_pieces(tail, sep);
            let pieces = seq![s.subrange(0, j)] + split_on(tail, sep);
            assert(split_on(s, sep) == pieces);
            assert forall|i: int| 0 <= i < pieces.len() implies #[trigger] pieces[i].len()
                > 0 by {
                if i >= 1 {
                    assert(pieces[i] == split_on(tail, sep)[i - 1]);
                }
            }
        },
    }
}

/// Joining one more piece appends a separator and that piece.
pub proof fn lemma_join_take_snoc(pieces: Seq<Seq<char>>, sep: Seq<char>, k: int)
    requires
        1 <= k < pieces.len(),
    ensures
        join_with(pieces.take(k + 1), sep) == join_with(pieces.take(k), sep) + sep
            + pieces[k],
    decreases k,
{
    if k == 1 {
        assert(pieces.take(2)[0] == pieces[0]);
        assert(pieces.take(2).skip(1) =~= seq![pieces[1]]);
        assert(join_with(seq![pieces[1]], sep) == pieces[1]);
        assert(join_with(pieces.take(2), sep) == pieces[0] + sep + pieces[1]);
        assert(pieces.take(1) =~= seq![pieces[0]]);
    } else {
        let rest = pieces.skip(1);
        lemma_join_take_snoc(rest, sep, k - 1);
        assert(pieces.take(k + 1).skip(1) =~= rest.take(k));
        assert(pieces.take(k).skip(1) =~= rest.take(k - 1));
        assert(join_with(pieces.take(k + 1), sep) == pieces[0] + sep + join_with(
            rest.take(k),
            sep,
        ));
        assert(join_with(pieces.take(k), sep) == pieces[0] + sep + join_with(
            rest.take(k - 1),
            sep,
        ));
        assert(rest[k - 1] == pieces[k]);
        assert(pieces[0] + sep + (join_with(rest.take(k - 1), sep) + sep + pieces[k]) =~= (
        pieces[0] + sep + join_with(rest.take(k - 1), sep)) + sep + pieces[k]);
    }
}

/// The sequence with its leading whitespace removed.
pub open spec fn trim_left(s: Seq<char>) -> Seq<char>
    decreases s.len(),
{
    if s.len() > 0 && is_space(s[0]) {
        trim_left(s.skip(1))
    } else {
        s
    }
}

/// The sequence with its trailing whitespace removed.
pub open spec fn trim_right(s: Seq<char>) -> Seq<char>
    decreases s.len(),
{
    if s.len() > 0 && is_space(s[s.len() - 1]) {
        trim_right(s.take(s.len() - 1))
    } else {
        s
    }
}

/// The sequence with leading and trailing whitespace removed.
pub open spec fn spec_trim(s: Seq<char>) -> Seq<char> {
    trim_right(trim_left(s))
}

pub proof fn lemma_trim_left_at(s: Seq<char>, lo: int)
    requires
        0 <= lo <= s.len(),
        forall|k: int| 0 <= k < lo ==> is_space(s[k]),
        lo == s.len() || !is_space(s[lo]),
    ensures
        trim_left(s) == s.skip(lo),
    decreases lo,
{
    if lo == 0 {
        assert(s.skip(0) =~= s);
    } else {
        assert(is_space(s[0]));
        lemma_trim_left_at(s.skip(1), lo - 1);
        assert(s.skip(1).skip(lo - 1) =~= s.skip(lo));
    }
}

pub proof fn lemma_trim_right_at(s: Seq<char>, hi: int)
    requires
        0 <= hi <= s.len(),
        forall|k: int| hi <= k < s.len() ==> is_space(s[k]),
        hi == 0 || !is_space(s[hi - 1]),
    ensures
        trim_right(s) == s.take(hi),
    decreases s.len(),
{
    if hi == s.len() {
        assert(s.take(hi) =~= s);
        if s.len() > 0 {
            assert(!is_space(s[s.len() - 1]));
        }
    } else {
        assert(is_space(s[s.len() - 1]));
        lemma_trim_right_at(s.take(s.len() - 1), hi);
        assert(s.take(s.len() - 1).take(hi) =~= s.take(hi));
    }
}

/// Trimming changes nothing when neither end is whitespace.
pub proof fn lemma_trim_noop(s: Seq<char>)
    requires
        s.len() == 0 || (!is_space(s[0]) && !is_space(s[s.len() - 1])),
    ensures
        spec_trim(s) == s,
{
    lemma_trim_left_at(s, 0);
    assert(s.skip(0) =~= s);
    lemma_trim_right_at(s, s.len() as int);
    assert(s.take(s.len() as int) =~= s);
}

/// Relies on String::push: it appends exactly the one character.
#[verifier::external_body]
pub fn push_char(s: &mut String, c: char)
    ensures
        final(s)@ == old(s)@.push(c),
{
    s.push(c);
}

/// The characters of a string slice, as a vector.
pub fn chars_of_str(s: &str) -> (r: Vec<char>)
    ensures
        r@ == s@,
{
    let n = s.unicode_len();
    let mut r: Vec<char> = Vec::new();
    let mut i: usize = 0;
    while i < n
        invariant
            n == s@.len(),
            i <= n,
            r@ == s@.take(i as int),
        decreases n - i,
    {
        r.push(s.get_char(i));
        i = i + 1;
        proof {
            assert(r@ =~= s@.take(i as int));
        }
    }
    proof {
        assert(s@.take(n as int) =~= s@);
    }
    r
}

/// A string holding exactly the given characters.
pub fn string_of_chars(v: &Vec<char>) -> (r: String)
    ensures
        r@ == v@,
{
    let mut r = String::new();
    let mut i: usize = 0;
    while i < v.len()
        invariant
            i <= v@.len(),
            r@ == v@.take(i as int),
        decreases v@.len() - i,
    {
        push_char(&mut r, v[i]);
        i = i + 1;
        proof {
            assert(r@ =~= v@.take(i as int));
        }
    }
    proof {
        assert(v@.take(v@.len() as int) =~= v@);
    }
    r
}

/// A copy of the characters of `s` between `lo` and `hi`.
pub fn subrange_chars(s: &Vec<char>, lo: usize, hi: usize) -> (r: Vec<char>)
    requires
        lo <= hi <= s@.len(),
    ensures
        r@ == s@.subrange(lo as int, hi as int),
{
    let mut r: Vec<char> = Vec::new();
    let mut i: usize = lo;
    while i < hi
        invariant
            lo <= i <= hi <= s@.len(),
            r@ == s@.subrange(lo as int, i as int),
        decreases hi - i,
    {
        r.push(s[i]);
        i = i + 1;
        proof {
            assert(r@ =~= s@.subrange(lo as int, i as int));
        }
    }
    r
}

/// A split yields at most one piece more than the sequence has characters.
pub proof fn lemma_split_on_count(s: Seq<char>, sep: Seq<char>)
    requires
        sep.len() >= 1,
    ensures
        split_on(s, sep).len() <= s.len() + 1,
    decreases s.len(),
{
    lemma_find_from(s, sep, 0);
    match find_from(s, sep, 0) {
        None => {},
        Some(j) => {
            lemma_split_on_count(s.subrange(j + sep.len() as int, s.len() as int), sep);
        },
    }
}

/// Appends all characters of `src` to `dst`.
pub fn append_chars(dst: &mut Vec<char>, src: &Vec<char>)
    ensures
        final(dst)@ == old(dst)@ + src@,
{
    proof {
        assert(old(dst)@ + src@.take(0) =~= old(dst)@);
    }
    let mut i: usize = 0;
    while i < src.len()
        invariant
            i <= src@.len(),
            dst@ == old(dst)@ + src@.take(i as int),
        decreases src@.len() - i,
    {
        dst.push(src[i]);
        i = i + 1;
        proof {
            assert((old(dst)@ + src@.take(i - 1)).push(src@[i - 1]) =~= old(dst)@
                + src@.take(i as int));
        }
    }
    proof {
        assert(old(dst)@ + src@.take(src@.len() as int) =~= old(dst)@ + src@);
    }
}

/// Whether `pat` occurs in `s` starting at position `i`.
fn matches_at(s: &Vec<char>, pat: &Vec<char>, i: usize) -> (r: bool)
    requires
        i + pat@.len() <= s@.len(),
    ensures
        r == (s@.subrange(i as int, i + pat@.len()) == pat@),
{
    let n = s.len();
    let p = pat.len();
    let mut k: usize = 0;
    while k < p
        invariant
            n == s@.len(),
            p == pat@.len(),
            i + p <= n,
            k <= p,
            forall|m: int| 0 <= m < k ==> s@[i + m] == pat@[m],
        decreases p - k,
    {
        if s[i + k] != pat[k] {
            proof {
                assert(s@.subrange(i as int, i + pat@.len())[k as int] == s@[i + k]);
            }
            return false;
        }
        k = k + 1;
    }
    proof {
        assert(s@.subrange(i as int, i + pat@.len()) =~= pat@);
    }
    true
}

/// The first occurrence of `pat` in `s` at or after `from`.
pub fn find_pattern(s: &Vec<char>, pat: &Vec<char>, from: usize) -> (r: Option<usize>)
    requires
        pat@.len() >= 1,
    ensures
        match r {
            Some(j) => from <= j && j + pat@.len() <= s@.len() && find_from(
                s@,
                pat@,
                from as int,
            ) == Some(j as int),
            None => find_from(s@, pat@, from as int) is None,
        },
{
    let mut i: usize = from;
    loop
        invariant
            from <= i,
            pat@.len() >= 1,
            find_from(s@, pat@, from as int) == find_from(s@, pat@, i as int),
        decreases s@.len() + pat@.len() - i,
    {
        if s.len() < pat.len() || i > s.len() - pat.len() {
            return None;
        }
        if matches_at(s, pat, i) {
            return Some(i);
        }
        i = i + 1;
    }
}

/// The pieces of `s` between the occurrences of `sep`.
pub fn split_chars(s: &Vec<char>, sep: &Vec<char>) -> (r: Vec<Vec<char>>)
    requires
        sep@.len() >= 1,
    ensures
        r@.map_values(|p: Vec<char>| p@) == split_on(s@, sep@),
{
    let mut pieces: Vec<Vec<char>> = Vec::new();
    let mut rest: Vec<char> = subrange_chars(s, 0, s.len());
    proof {
        assert(s@.subrange(0, s@.len() as int) =~= s@);
    }
    loop
        invariant
            sep@.len() >= 1,
            split_on(s@, sep@) == pieces@.map_values(|p: Vec<char>| p@) + split_on(
                rest@,
                sep@,
            ),
        decreases rest@.len(),
    {
        match find_pattern(&rest, sep, 0) {
            None => {
                pieces.push(rest);
                proof {
                    assert(split_on(s@, sep@) =~= pieces@.map_values(|p: Vec<char>| p@));
                }
                return pieces;
            },
            Some(j) => {
                let ghost old_pieces = pieces@;
                let ghost old_rest = rest@;
                let rl = rest.len();
                let piece = subrange_chars(&rest, 0, j);
                let tail = subrange_chars(&rest, j + sep.len(), rl);
                pieces.push(piece);
                rest = tail;
                proof {
                    assert(split_on(old_rest, sep@) == seq![old_rest.subrange(0, j as int)]
                        + split_on(rest@, sep@));
                    assert(pieces@.map_values(|p: Vec<char>| p@) =~= old_pieces.map_values(
                        |p: Vec<char>| p@,
                    ) + seq![old_rest.subrange(0, j as int)]);
                    assert(split_on(s@, sep@) =~= pieces@.map_values(|p: Vec<char>| p@)
                        + split_on(rest@, sep@));
                }
            },
        }
    }
}

} // verus!
