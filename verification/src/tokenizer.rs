//! GPT-2's byte-level BPE tokenizer: text is pre-split into words, each
//! word's bytes are spelled with visible characters, adjacent pieces are
//! merged by rank, and every resulting token is looked up in the vocabulary.

use crate::buckets::{build_index, indexes, is_bucket, lemma_bucket_order};
use std::collections::HashMap;
use std::collections::HashSet;
use vstd::prelude::*;

verus! {

// ---------------------------------------------------------------------------
// The byte <-> visible character table
// ---------------------------------------------------------------------------

/// Bytes that are spelled by the character with the same code.
pub open spec fn is_printable_byte(b: int) -> bool {
    (33 <= b <= 126) || (161 <= b <= 172) || (174 <= b <= 255)
}

/// How many bytes below `b` are not printable.
pub open spec fn unprintable_below(b: int) -> int
    decreases b,
{
    if b <= 0 {
        0
    } else {
        unprintable_below(b - 1) + if is_printable_byte(b - 1) { 0int } else { 1int }
    }
}

/// The code of the character that spells byte `b`: the byte itself when it
/// is printable, otherwise 256 plus the number of unprintable bytes before it.
pub open spec fn byte_char_code(b: int) -> int {
    if is_printable_byte(b) {
        b
    } else {
        256 + unprintable_below(b)
    }
}

proof fn lemma_unprintable_below_bounds(b: int)
    requires
        0 <= b,
    ensures
        0 <= unprintable_below(b) <= b,
    decreases b,
{
    if b > 0 {
        lemma_unprintable_below_bounds(b - 1);
    }
}

proof fn lemma_unprintable_below_grows(a: int, b: int)
    requires
        0 <= a < b,
        !is_printable_byte(a),
    ensures
        unprintable_below(a) < unprintable_below(b),
    decreases b - a,
{
    if b > a + 1 {
        lemma_unprintable_below_grows(a, b - 1);
    }
}

/// How many bytes below `b` are unprintable, counted range by range.
proof fn lemma_unprintable_below_closed(b: int)
    requires
        0 <= b <= 256,
    ensures
        unprintable_below(b) == if b <= 33 {
            b
        } else if b <= 127 {
            33
        } else if b <= 161 {
            b - 94
        } else if b <= 173 {
            67
        } else {
            68
        },
    decreases b,
{
    if b > 0 {
        lemma_unprintable_below_closed(b - 1);
    }
}

/// The byte table, range by range: bytes 0 to 32 are spelled by U+0100 to
/// U+0120, bytes 33 to 126 by themselves, bytes 127 to 160 by U+0121 to
/// U+0142, bytes 161 to 172 by themselves, byte 173 by U+0143, and bytes
/// 174 to 255 by themselves.
pub proof fn lemma_byte_char_code_ranges(b: int)
    requires
        0 <= b < 256,
    ensures
        byte_char_code(b) == if b < 33 {
            b + 256
        } else if b < 127 {
            b
        } else if b < 161 {
            b + 162
        } else if b < 173 {
            b
        } else if b == 173 {
            323
        } else {
            b
        },
{
    lemma_unprintable_below_closed(b);
}

/// Every byte gets its own character: the table is one-to-one.
pub proof fn lemma_byte_char_code_injective(a: int, b: int)
    requires
        0 <= a < 256,
        0 <= b < 256,
        a != b,
    ensures
        byte_char_code(a) != byte_char_code(b),
{
    lemma_unprintable_below_bounds(a);
    lemma_unprintable_below_bounds(b);
    if !is_printable_byte(a) && !is_printable_byte(b) {
        if a < b {
            lemma_unprintable_below_grows(a, b);
        } else {
            lemma_unprintable_below_grows(b, a);
        }
    }
}

/// `char::from_u32`: the character whose scalar value is `code`, which
/// exists exactly when `code` is no surrogate and at most 0x10FFFF.
#[verifier::external_body]
fn char_from_code(code: u32) -> (c: Option<char>)
    ensures
        c is Some <==> (code < 0xD800 || (0xE000 <= code && code <= 0x10FFFF)),
        c matches Some(ch) ==> ch as int == code as int,
{
    char::from_u32(code)
}

/// Gives every one of the 256 possible bytes its own visible character.
pub fn bytes_to_unicode() -> (table: [char; 256])
    ensures
        forall|b: int| 0 <= b < 256 ==> #[trigger] table@[b] as int == byte_char_code(b),
{
    let mut table = ['\0'; 256];
    let mut next_extra: u32 = 256;
    let mut b: u32 = 0;
    while b < 256
        invariant
            b <= 256,
            next_extra == 256 + unprintable_below(b as int),
            forall|c: int| 0 <= c < b ==> #[trigger] table@[c] as int == byte_char_code(c),
        decreases 256 - b,
    {
        proof {
            lemma_unprintable_below_bounds(b as int);
        }
        let printable = (33 <= b && b <= 126) || (161 <= b && b <= 172) || (174 <= b && b <= 255);
        let code = if printable {
            b
        } else {
            let extra = next_extra;
            next_extra = next_extra + 1;
            extra
        };
        let ch = char_from_code(code).unwrap();
        assert(ch as int == byte_char_code(b as int));
        table[b as usize] = ch;
        b = b + 1;
    }
    table
}


// ---------------------------------------------------------------------------
// Text helpers
// ---------------------------------------------------------------------------

/// The characters of `s`, in order.
pub fn chars_of(s: &str) -> (v: Vec<char>)
    ensures
        v@ == s@,
{
    let mut v: Vec<char> = Vec::new();
    for c in it: s.chars()
        invariant
            it.seq() == s@,
            v@ == s@.take(it.index() as int),
    {
        proof {
            assert(s@.take(it.index() + 1) == s@.take(it.index() as int).push(c));
        }
        v.push(c);
    }
    proof {
        assert(s@.take(s@.len() as int) == s@);
    }
    v
}

/// `line` without one trailing carriage return.
pub open spec fn strip_cr(line: Seq<char>) -> Seq<char> {
    if line.len() > 0 && line.last() == '\r' {
        line.drop_last()
    } else {
        line
    }
}

/// After reading `text`: the lines ended by a line feed so far, and the
/// line still being read.
pub open spec fn scan_lines(text: Seq<char>) -> (Seq<Seq<char>>, Seq<char>)
    decreases text.len(),
{
    if text.len() == 0 {
        (Seq::empty(), Seq::empty())
    } else {
        let (done, cur) = scan_lines(text.drop_last());
        if text.last() == '\n' {
            (done.push(strip_cr(cur)), Seq::empty())
        } else {
            (done, cur.push(text.last()))
        }
    }
}

/// The lines of `text` as `str::lines` gives them: split at `\n` or `\r\n`,
/// terminators dropped, and no empty line after a final terminator.
pub open spec fn lines(text: Seq<char>) -> Seq<Seq<char>> {
    let (done, cur) = scan_lines(text);
    if cur.len() > 0 {
        done.push(cur)
    } else {
        done
    }
}

/// Splits `text` into its lines.
pub fn split_lines(text: &Vec<char>) -> (out: Vec<Vec<char>>)
    ensures
        out@.map_values(|l: Vec<char>| l@) == lines(text@),
{
    let mut done: Vec<Vec<char>> = Vec::new();
    let mut cur: Vec<char> = Vec::new();
    let mut i: usize = 0;
    while i < text.len()
        invariant
            i <= text.len(),
            (done@.map_values(|l: Vec<char>| l@), cur@) == scan_lines(text@.take(i as int)),
        decreases text.len() - i,
    {
        let c = text[i];
        proof {
            assert(text@.take(i + 1).drop_last() == text@.take(i as int));
        }
        if c == '\n' {
            let mut line = cur;
            let n = line.len();
            if n > 0 && line[n - 1] == '\r' {
                line.pop();
            }
            done.push(line);
            cur = Vec::new();
        } else {
            cur.push(c);
        }
        i = i + 1;
        proof {
            assert(done@.map_values(|l: Vec<char>| l@) == scan_lines(text@.take(i as int)).0);
        }
    }
    proof {
        assert(text@.take(text@.len() as int) == text@);
    }
    if cur.len() > 0 {
        done.push(cur);
    }
    proof {
        assert(done@.map_values(|l: Vec<char>| l@) == lines(text@));
    }
    done
}


/// A copy of `v[lo..hi]`.
fn copy_range(v: &Vec<char>, lo: usize, hi: usize) -> (r: Vec<char>)
    requires
        lo <= hi <= v.len(),
    ensures
        r@ == v@.subrange(lo as int, hi as int),
{
    let mut r: Vec<char> = Vec::new();
    let mut i = lo;
    while i < hi
        invariant
            lo <= i <= hi <= v.len(),
            r@ == v@.subrange(lo as int, i as int),
        decreases hi - i,
    {
        r.push(v[i]);
        i = i + 1;
    }
    r
}

// ---------------------------------------------------------------------------
// merges.txt
// ---------------------------------------------------------------------------

/// `i` is the position of the first space in `line`.
pub open spec fn is_first_space(line: Seq<char>, i: int) -> bool {
    &&& 0 <= i < line.len()
    &&& line[i] == ' '
    &&& forall|j: int| 0 <= j < i ==> line[j] != ' '
}

/// `str::split_once(' ')`: the text before and after the first space.
pub open spec fn split_once_space(line: Seq<char>) -> Option<(Seq<char>, Seq<char>)> {
    if exists|i: int| is_first_space(line, i) {
        let i = choose|i: int| is_first_space(line, i);
        Some((line.take(i), line.skip(i + 1)))
    } else {
        None
    }
}

/// The merge rules read from the lines after the header: each non-empty
/// line is `left right`, and its rank is its position among those lines
/// (empty lines are skipped but still counted). The first line without a
/// space is the error.
pub open spec fn merge_entries(body: Seq<Seq<char>>) -> Result<
    Seq<(Seq<char>, Seq<char>, nat)>,
    Seq<char>,
>
    decreases body.len(),
{
    if body.len() == 0 {
        Ok(Seq::empty())
    } else {
        match merge_entries(body.drop_last()) {
            Err(line) => Err(line),
            Ok(entries) => {
                let line = body.last();
                if line.len() == 0 {
                    Ok(entries)
                } else {
                    match split_once_space(line) {
                        None => Err(line),
                        Some((left, right)) => Ok(
                            entries.push((left, right, (body.len() - 1) as nat)),
                        ),
                    }
                }
            },
        }
    }
}

/// Once a prefix of the lines fails, every longer prefix fails the same way.
proof fn lemma_merge_entries_error_sticks(body: Seq<Seq<char>>, n: int)
    requires
        0 <= n <= body.len(),
        merge_entries(body.take(n)) is Err,
    ensures
        forall|m: int| n <= m <= body.len() ==> #[trigger] merge_entries(body.take(m)) == merge_entries(body.take(n)),
{
    assert forall|m: int| n <= m <= body.len() implies #[trigger] merge_entries(body.take(m)) == merge_entries(body.take(n)) by {
        lemma_merge_entries_error_sticks_to(body, n, m);
    }
}

proof fn lemma_merge_entries_error_sticks_to(body: Seq<Seq<char>>, n: int, m: int)
    requires
        0 <= n <= m <= body.len(),
        merge_entries(body.take(n)) is Err,
    ensures
        merge_entries(body.take(m)) == merge_entries(body.take(n)),
    decreases m - n,
{
    if m > n {
        lemma_merge_entries_error_sticks_to(body, n, m - 1);
        assert(body.take(m).drop_last() == body.take(m - 1));
    }
}

/// The ranked merge rules of a merges.txt file, whose first line (the
/// version header) is skipped.
pub open spec fn parse_merges(text: Seq<char>) -> Result<
    Seq<(Seq<char>, Seq<char>, nat)>,
    Seq<char>,
> {
    let all = lines(text);
    if all.len() == 0 {
        Ok(Seq::empty())
    } else {
        merge_entries(all.drop_first())
    }
}

/// Splitting a line at its first space, wherever that space is.
proof fn lemma_split_at_first_space(line: Seq<char>, s: int)
    requires
        0 <= s < line.len(),
        line[s] == ' ',
        forall|j: int| 0 <= j < s ==> line[j] != ' ',
    ensures
        split_once_space(line) == Some((line.take(s), line.skip(s + 1))),
{
    assert(is_first_space(line, s));
    let i = choose|i: int| is_first_space(line, i);
    if i < s {
        assert(line[i] != ' ');
    } else if i > s {
        assert(line[s] != ' ');
    }
}

/// Each non-empty line with a space yields its rule, ranked by the line's
/// position.
proof fn lemma_merge_entries_has_line(body: Seq<Seq<char>>, k: int, s: int)
    requires
        merge_entries(body) is Ok,
        0 <= k < body.len(),
        0 <= s < body[k].len(),
        body[k][s] == ' ',
        forall|j: int| 0 <= j < s ==> body[k][j] != ' ',
    ensures
        merge_entries(body)->Ok_0.contains((body[k].take(s), body[k].skip(s + 1), k as nat)),
    decreases body.len(),
{
    let prev = body.drop_last();
    let rule = (body[k].take(s), body[k].skip(s + 1), k as nat);
    if k < body.len() - 1 {
        assert(prev[k] == body[k]);
        lemma_merge_entries_has_line(prev, k, s);
        let before = merge_entries(prev)->Ok_0;
        let p = choose|p: int| 0 <= p < before.len() && before[p] == rule;
        let line = body.last();
        if line.len() != 0 {
            let after = merge_entries(body)->Ok_0;
            assert(after == before.push(after.last()));
            assert(after[p] == rule);
        }
    } else {
        lemma_split_at_first_space(body[k], s);
        let after = merge_entries(body)->Ok_0;
        assert(after.last() == rule);
        assert(after[after.len() - 1] == rule);
    }
}

/// Every non-empty line of merges.txt after the first that holds a space is
/// a rule, whatever its first character: the text before its first space
/// and the text after it, ranked by the line's position after the first
/// line.
pub proof fn lemma_every_spaced_line_is_a_rule(text: Seq<char>, k: int, s: int)
    requires
        parse_merges(text) is Ok,
        1 <= k < lines(text).len(),
        0 <= s < lines(text)[k].len(),
        lines(text)[k][s] == ' ',
        forall|j: int| 0 <= j < s ==> lines(text)[k][j] != ' ',
    ensures
        parse_merges(text)->Ok_0.contains(
            (lines(text)[k].take(s), lines(text)[k].skip(s + 1), (k - 1) as nat),
        ),
{
    let body = lines(text).drop_first();
    assert(body[k - 1] == lines(text)[k]);
    lemma_merge_entries_has_line(body, k - 1, s);
}

/// A line with a space has a first space.
proof fn lemma_first_space_exists(line: Seq<char>, i: int)
    requires
        0 <= i < line.len(),
        line[i] == ' ',
    ensures
        split_once_space(line) is Some,
    decreases i,
{
    if exists|j: int| 0 <= j < i && line[j] == ' ' {
        let j = choose|j: int| 0 <= j < i && line[j] == ' ';
        lemma_first_space_exists(line, j);
    } else {
        assert(is_first_space(line, i));
    }
}

/// The lines are accepted exactly when every non-empty one holds a space.
proof fn lemma_merge_entries_ok(body: Seq<Seq<char>>)
    ensures
        merge_entries(body) is Ok <==> forall|k: int|
            0 <= k < body.len() && body[k].len() > 0 ==> #[trigger] body[k].contains(' '),
    decreases body.len(),
{
    if body.len() > 0 {
        let prev = body.drop_last();
        lemma_merge_entries_ok(prev);
        let line = body.last();
        if line.contains(' ') {
            let i = choose|i: int| 0 <= i < line.len() && line[i] == ' ';
            lemma_first_space_exists(line, i);
        } else if line.len() > 0 {
            if split_once_space(line) is Some {
                let i = choose|i: int| is_first_space(line, i);
                assert(line[i] == ' ');
            }
        }
        if merge_entries(body) is Ok {
            assert forall|k: int| 0 <= k < body.len() && body[k].len() > 0 implies #[trigger] body[k].contains(' ') by {
                if k < body.len() - 1 {
                    assert(prev[k] == body[k]);
                }
            }
        } else {
            if merge_entries(prev) is Ok {
                assert(body[body.len() - 1] == line);
            } else {
                let k = choose|k: int| 0 <= k < prev.len() && prev[k].len() > 0 && !(#[trigger] prev[k].contains(' '));
                assert(prev[k] == body[k]);
            }
        }
    }
}

/// merges.txt is accepted exactly when every non-empty line after the
/// first holds a space.
pub proof fn lemma_merges_accepted_iff_lines_have_spaces(text: Seq<char>)
    ensures
        parse_merges(text) is Ok <==> forall|k: int|
            1 <= k < lines(text).len() && lines(text)[k].len() > 0 ==> #[trigger] lines(text)[k].contains(' '),
{
    let all = lines(text);
    if all.len() > 0 {
        let body = all.drop_first();
        lemma_merge_entries_ok(body);
        if parse_merges(text) is Ok {
            assert forall|k: int| 1 <= k < all.len() && all[k].len() > 0 implies #[trigger] all[k].contains(' ') by {
                assert(body[k - 1] == all[k]);
            }
        } else {
            let k = choose|k: int| 0 <= k < body.len() && body[k].len() > 0 && !(#[trigger] body[k].contains(' '));
            assert(body[k] == all[k + 1]);
        }
    }
}

/// The plain view of stored merge rules.
pub open spec fn merges_view(v: Seq<(Vec<char>, Vec<char>, usize)>) -> Seq<
    (Seq<char>, Seq<char>, nat),
> {
    v.map_values(|e: (Vec<char>, Vec<char>, usize)| (e.0@, e.1@, e.2 as nat))
}

fn split_at_first_space(line: &Vec<char>) -> (r: Option<(Vec<char>, Vec<char>)>)
    ensures
        match r {
            Some((a, b)) => split_once_space(line@) == Some((a@, b@)),
            None => split_once_space(line@) is None,
        },
{
    let mut i: usize = 0;
    while i < line.len()
        invariant
            i <= line.len(),
            forall|j: int| 0 <= j < i ==> line@[j] != ' ',
        decreases line.len() - i,
    {
        if line[i] == ' ' {
            proof {
                assert(is_first_space(line@, i as int));
                let k = choose|k: int| is_first_space(line@, k);
                assert(k == i);
            }
            let a = copy_range(line, 0, i);
            let b = copy_range(line, i + 1, line.len());
            return Some((a, b));
        }
        i = i + 1;
    }
    None
}

/// Reads the ranked merge rules of a merges.txt text.
fn read_merges(text: &str) -> (r: Result<Vec<(Vec<char>, Vec<char>, usize)>, Vec<char>>)
    ensures
        match r {
            Ok(m) => parse_merges(text@) == Ok::<_, Seq<char>>(merges_view(m@)),
            Err(line) => parse_merges(text@) == Err::<Seq<(Seq<char>, Seq<char>, nat)>, _>(line@),
        },
        r matches Ok(m) ==> forall|i: int| 0 <= i < m.len() ==> (#[trigger] m[i]).2 < usize::MAX,
{
    let chars = chars_of(text);
    let all = split_lines(&chars);
    let ghost all_v = all@.map_values(|l: Vec<char>| l@);
    assert(all_v == lines(text@));
    let mut merges: Vec<(Vec<char>, Vec<char>, usize)> = Vec::new();
    assert(merges_view(merges@) =~= Seq::empty());
    if all.len() == 0 {
        return Ok(merges);
    }
    let ghost body = all_v.drop_first();
    assert(body.take(0) =~= Seq::empty());
    let mut i: usize = 1;
    while i < all.len()
        invariant
            1 <= i <= all.len(),
            all_v == all@.map_values(|l: Vec<char>| l@),
            all_v == lines(text@),
            all_v.len() > 0,
            body == all_v.drop_first(),
            merge_entries(body.take(i - 1)) == Ok::<_, Seq<char>>(merges_view(merges@)),
            forall|j: int| 0 <= j < merges.len() ==> (#[trigger] merges[j]).2 < i,
        decreases all.len() - i,
    {
        let line = &all[i];
        proof {
            assert(body.take(i as int).drop_last() == body.take(i - 1));
            assert(body.take(i as int).last() == line@);
        }
        if line.len() > 0 {
            match split_at_first_space(line) {
                None => {
                    let bad = copy_range(line, 0, line.len());
                    proof {
                        assert(bad@ == line@);
                        assert(merge_entries(body.take(i as int)) == Err::<
                            Seq<(Seq<char>, Seq<char>, nat)>,
                            _,
                        >(line@));
                        lemma_merge_entries_error_sticks(body, i as int);
                        assert(body.take(body.len() as int) == body);
                    }
                    return Err(bad);
                },
                Some((left, right)) => {
                    let ghost prev = merges@;
                    let ghost lv = left@;
                    let ghost rv = right@;
                    merges.push((left, right, i - 1));
                    proof {
                        assert(merges_view(merges@) =~= merges_view(prev).push(
                            (lv, rv, (i - 1) as nat),
                        ));
                    }
                },
            }
        }
        i = i + 1;
    }
    proof {
        assert(body.take(all.len() - 1) == body);
    }
    Ok(merges)
}


// ---------------------------------------------------------------------------
// vocab.json
// ---------------------------------------------------------------------------

/// What serde_json reads from a vocab.json text as a map from token text to
/// id: its (token, id) pairs in ascending token order, or serde_json's error
/// message when the text is not a JSON object of such pairs.
pub uninterp spec fn vocab_json(text: Seq<char>) -> Result<Seq<(Seq<char>, u32)>, Seq<char>>;

/// The plain view of stored vocabulary entries.
pub open spec fn vocab_view(v: Seq<(Vec<char>, u32)>) -> Seq<(Seq<char>, u32)> {
    v.map_values(|e: (Vec<char>, u32)| (e.0@, e.1))
}

/// `serde_json::from_str` into a `BTreeMap<String, u32>`, whose entries come
/// out in ascending key order. The contract ties the entries to the named
/// parse result of the text; on an error only serde_json's message is given.
#[verifier::external_body]
fn parse_vocab_json(text: &str) -> (r: Result<Vec<(Vec<char>, u32)>, String>)
    ensures
        match r {
            Ok(v) => vocab_json(text@) == Ok::<_, Seq<char>>(vocab_view(v@)),
            Err(m) => vocab_json(text@) == Err::<Seq<(Seq<char>, u32)>, _>(m@),
        },
{
    match serde_json::from_str::<std::collections::BTreeMap<String, u32>>(text) {
        Ok(m) => Ok(m.into_iter().map(|(k, v)| (k.chars().collect(), v)).collect()),
        Err(e) => Err(e.to_string()),
    }
}

/// `i` is the first entry of `vocab` for `token`.
pub open spec fn is_first_token_entry(vocab: Seq<(Seq<char>, u32)>, token: Seq<char>, i: int) -> bool {
    &&& 0 <= i < vocab.len()
    &&& vocab[i].0 == token
    &&& forall|j: int| 0 <= j < i ==> vocab[j].0 != token
}

/// The id of `token`: that of its first entry.
pub open spec fn vocab_id(vocab: Seq<(Seq<char>, u32)>, token: Seq<char>) -> Option<u32> {
    if exists|i: int| is_first_token_entry(vocab, token, i) {
        Some(vocab[choose|i: int| is_first_token_entry(vocab, token, i)].1)
    } else {
        None
    }
}

/// `i` is the last entry of `vocab` with id `id`.
pub open spec fn is_last_id_entry(vocab: Seq<(Seq<char>, u32)>, id: u32, i: int) -> bool {
    &&& 0 <= i < vocab.len()
    &&& vocab[i].1 == id
    &&& forall|j: int| i < j < vocab.len() ==> vocab[j].1 != id
}

/// The token text of `id`: that of the last entry with this id (the one a
/// map filled in entry order keeps).
pub open spec fn vocab_token(vocab: Seq<(Seq<char>, u32)>, id: u32) -> Option<Seq<char>> {
    if exists|i: int| is_last_id_entry(vocab, id, i) {
        Some(vocab[choose|i: int| is_last_id_entry(vocab, id, i)].0)
    } else {
        None
    }
}

proof fn lemma_vocab_token_step(vocab: Seq<(Seq<char>, u32)>, n: int, id: u32)
    requires
        0 <= n < vocab.len(),
    ensures
        vocab_token(vocab.take(n + 1), id) == if vocab[n].1 == id {
            Some(vocab[n].0)
        } else {
            vocab_token(vocab.take(n), id)
        },
{
    let a = vocab.take(n);
    let b = vocab.take(n + 1);
    if vocab[n].1 == id {
        assert(is_last_id_entry(b, id, n));
        let k = choose|i: int| is_last_id_entry(b, id, i);
        assert(k == n);
    } else {
        if exists|i: int| is_last_id_entry(a, id, i) {
            let i = choose|i: int| is_last_id_entry(a, id, i);
            assert(is_last_id_entry(b, id, i));
            let k = choose|k: int| is_last_id_entry(b, id, k);
            assert(k == i);
        } else {
            if exists|k: int| is_last_id_entry(b, id, k) {
                let k = choose|k: int| is_last_id_entry(b, id, k);
                assert(is_last_id_entry(a, id, k));
            }
        }
    }
}

/// Whether no two entries of the vocabulary share an id.
fn all_ids_distinct(encoder: &Vec<(Vec<char>, u32)>) -> (b: bool)
    ensures
        b == ids_unique(vocab_view(encoder@)),
{
    broadcast use vstd::std_specs::hash::group_hash_axioms;

    let ghost v = vocab_view(encoder@);
    let mut seen: HashSet<u32> = HashSet::new();
    let mut i: usize = 0;
    while i < encoder.len()
        invariant
            i <= encoder.len(),
            v == vocab_view(encoder@),
            forall|x: u32| #[trigger] seen@.contains(x) <==> exists|j: int| 0 <= j < i && (#[trigger] v[j]).1 == x,
            forall|a: int, b: int|
                0 <= a < i && 0 <= b < i && #[trigger] v[a].1 == #[trigger] v[b].1 ==> a == b,
        decreases encoder.len() - i,
    {
        let id = encoder[i].1;
        proof {
            assert(v[i as int].1 == id);
        }
        if seen.contains(&id) {
            proof {
                let j = choose|j: int| 0 <= j < i && (#[trigger] v[j]).1 == id;
                assert(v[i as int].1 == v[j].1 && i != j);
            }
            return false;
        }
        seen.insert(id);
        i = i + 1;
    }
    true
}

/// The id -> token map of a vocabulary, filled in entry order.
fn build_decoder(encoder: &Vec<(Vec<char>, u32)>) -> (d: HashMap<u32, Vec<char>>)
    ensures
        forall|id: u32| #[trigger] d@.contains_key(id) == (vocab_token(vocab_view(encoder@), id) is Some),
        forall|id: u32| #[trigger] d@.contains_key(id) ==> d@[id]@ == vocab_token(vocab_view(encoder@), id)->0,
{
    broadcast use vstd::std_specs::hash::group_hash_axioms;

    let ghost vocab = vocab_view(encoder@);
    let mut d: HashMap<u32, Vec<char>> = HashMap::new();
    let mut n: usize = 0;
    while n < encoder.len()
        invariant
            n <= encoder.len(),
            vocab == vocab_view(encoder@),
            forall|id: u32| #[trigger] d@.contains_key(id) == (vocab_token(vocab.take(n as int), id) is Some),
            forall|id: u32| #[trigger] d@.contains_key(id) ==> d@[id]@ == vocab_token(vocab.take(n as int), id)->0,
        decreases encoder.len() - n,
    {
        let token = copy_range(&encoder[n].0, 0, encoder[n].0.len());
        let id = encoder[n].1;
        d.insert(id, token);
        proof {
            assert forall|x: u32| true implies vocab_token(vocab.take(n + 1), x) == if vocab[n as int].1 == x {
                Some(vocab[n as int].0)
            } else {
                vocab_token(vocab.take(n as int), x)
            } by {
                lemma_vocab_token_step(vocab, n as int, x);
            }
        }
        n = n + 1;
    }
    proof {
        assert(vocab.take(encoder.len() as int) == vocab);
    }
    d
}


// ---------------------------------------------------------------------------
// BPE
// ---------------------------------------------------------------------------

/// A number below 2^21 standing for the first character of `t`: its code,
/// or 0x1FFFFF, which is no code point, when `t` is empty.
pub open spec fn first_slot(t: Seq<char>) -> int {
    if t.len() == 0 {
        0x1FFFFF
    } else {
        (t[0] as u32) as int % 0x200000
    }
}

/// A number standing for the last character of `t`, as [`first_slot`].
pub open spec fn last_slot(t: Seq<char>) -> int {
    if t.len() == 0 {
        0x1FFFFF
    } else {
        (t[t.len() - 1] as u32) as int % 0x200000
    }
}

/// The index key of the pair (`left`, `right`): the first and last
/// characters of `left` and the first of `right`, 21 bits each (each code
/// point fits in 21 bits, so pairs with different ends get different keys).
pub open spec fn pair_key(left: Seq<char>, right: Seq<char>) -> u64 {
    (first_slot(left) * 0x40000000000 + last_slot(left) * 0x200000 + first_slot(right)) as u64
}

/// The index keys of merge rules, in order.
pub open spec fn merge_keys(merges: Seq<(Seq<char>, Seq<char>, nat)>) -> Seq<u64> {
    merges.map_values(|e: (Seq<char>, Seq<char>, nat)| pair_key(e.0, e.1))
}

/// The index key of a token: its first and last characters and its length,
/// 21 bits each.
pub open spec fn token_key(t: Seq<char>) -> u64 {
    (first_slot(t) * 0x40000000000 + last_slot(t) * 0x200000 + t.len() % 0x200000) as u64
}

/// The index keys of vocabulary entries, in order.
pub open spec fn vocab_keys(vocab: Seq<(Seq<char>, u32)>) -> Seq<u64> {
    vocab.map_values(|e: (Seq<char>, u32)| token_key(e.0))
}

/// [`first_slot`] of a stored text.
fn first_slot_of(t: &Vec<char>) -> (r: u64)
    ensures
        r == first_slot(t@),
        r < 0x200000,
{
    if t.len() == 0 {
        0x1FFFFF
    } else {
        let c: u32 = t[0] as u32;
        c as u64 % 0x200000
    }
}

/// [`last_slot`] of a stored text.
fn last_slot_of(t: &Vec<char>) -> (r: u64)
    ensures
        r == last_slot(t@),
        r < 0x200000,
{
    if t.len() == 0 {
        0x1FFFFF
    } else {
        let c: u32 = t[t.len() - 1] as u32;
        c as u64 % 0x200000
    }
}

/// [`pair_key`] of two stored texts.
fn pair_key_of(left: &Vec<char>, right: &Vec<char>) -> (k: u64)
    ensures
        k == pair_key(left@, right@),
{
    let a = first_slot_of(left);
    let b = last_slot_of(left);
    let c = first_slot_of(right);
    assert(a * 0x40000000000 + b * 0x200000 + c < 0x8000000000000000) by (nonlinear_arith)
        requires
            a < 0x200000,
            b < 0x200000,
            c < 0x200000,
    ;
    a * 0x40000000000 + b * 0x200000 + c
}

/// [`token_key`] of a stored text.
fn token_key_of(t: &Vec<char>) -> (k: u64)
    ensures
        k == token_key(t@),
{
    let a = first_slot_of(t);
    let b = last_slot_of(t);
    let c = t.len() as u64 % 0x200000;
    assert(a * 0x40000000000 + b * 0x200000 + c < 0x8000000000000000) by (nonlinear_arith)
        requires
            a < 0x200000,
            b < 0x200000,
            c < 0x200000,
    ;
    a * 0x40000000000 + b * 0x200000 + c
}

/// The index keys of stored vocabulary entries.
fn vocab_keys_of(encoder: &Vec<(Vec<char>, u32)>) -> (keys: Vec<u64>)
    ensures
        keys@ == vocab_keys(vocab_view(encoder@)),
{
    let ghost v = vocab_view(encoder@);
    let mut keys: Vec<u64> = Vec::new();
    let mut i: usize = 0;
    while i < encoder.len()
        invariant
            i <= encoder.len(),
            v == vocab_view(encoder@),
            keys@ == vocab_keys(v).take(i as int),
        decreases encoder.len() - i,
    {
        let k = token_key_of(&encoder[i].0);
        keys.push(k);
        proof {
            assert(vocab_keys(v).take(i + 1) =~= vocab_keys(v).take(i as int).push(k));
        }
        i = i + 1;
    }
    proof {
        assert(vocab_keys(v).take(encoder.len() as int) =~= vocab_keys(v));
    }
    keys
}

/// The index keys of stored merge rules.
fn merge_keys_of(merges: &Vec<(Vec<char>, Vec<char>, usize)>) -> (keys: Vec<u64>)
    ensures
        keys@ == merge_keys(merges_view(merges@)),
{
    let ghost m = merges_view(merges@);
    let mut keys: Vec<u64> = Vec::new();
    let mut i: usize = 0;
    while i < merges.len()
        invariant
            i <= merges.len(),
            m == merges_view(merges@),
            keys@ == merge_keys(m).take(i as int),
        decreases merges.len() - i,
    {
        let k = pair_key_of(&merges[i].0, &merges[i].1);
        keys.push(k);
        proof {
            assert(merge_keys(m).take(i + 1) =~= merge_keys(m).take(i as int).push(k));
        }
        i = i + 1;
    }
    proof {
        assert(merge_keys(m).take(merges.len() as int) =~= merge_keys(m));
    }
    keys
}

/// `i` is the last merge rule for the pair (`left`, `right`).
pub open spec fn is_last_rule(
    merges: Seq<(Seq<char>, Seq<char>, nat)>,
    left: Seq<char>,
    right: Seq<char>,
    i: int,
) -> bool {
    &&& 0 <= i < merges.len()
    &&& merges[i].0 == left
    &&& merges[i].1 == right
    &&& forall|j: int| i < j < merges.len() ==> !(merges[j].0 == left && merges[j].1 == right)
}

/// The rank of the pair (`left`, `right`): that of its last rule, as a map
/// filled in file order keeps it.
pub open spec fn merge_rank(
    merges: Seq<(Seq<char>, Seq<char>, nat)>,
    left: Seq<char>,
    right: Seq<char>,
) -> Option<nat> {
    if exists|i: int| is_last_rule(merges, left, right, i) {
        Some(merges[choose|i: int| is_last_rule(merges, left, right, i)].2)
    } else {
        None
    }
}

/// A pair's rank is that of its last rule: when rule `i` joins `left` and
/// `right` and no later rule does, the pair has rule `i`'s rank, and a pair
/// that no rule joins has no rank.
pub proof fn lemma_rank_is_last_rule(
    merges: Seq<(Seq<char>, Seq<char>, nat)>,
    left: Seq<char>,
    right: Seq<char>,
    i: int,
)
    ensures
        (0 <= i < merges.len() && merges[i].0 == left && merges[i].1 == right && forall|j: int|
            i < j < merges.len() ==> !(#[trigger] merges[j].0 == left && merges[j].1 == right))
            ==> merge_rank(merges, left, right) == Some(merges[i].2),
        (forall|j: int| 0 <= j < merges.len() ==> !(#[trigger] merges[j].0 == left && merges[j].1 == right))
            ==> merge_rank(merges, left, right) is None,
{
    if 0 <= i < merges.len() && merges[i].0 == left && merges[i].1 == right && forall|j: int|
        i < j < merges.len() ==> !(#[trigger] merges[j].0 == left && merges[j].1 == right) {
        assert(is_last_rule(merges, left, right, i));
        let k = choose|k: int| is_last_rule(merges, left, right, k);
        if k < i {
            assert(!(merges[i].0 == left && merges[i].1 == right));
        } else if k > i {
            assert(!(merges[k].0 == left && merges[k].1 == right));
        }
    }
    if exists|k: int| is_last_rule(merges, left, right, k) {
        let k = choose|k: int| is_last_rule(merges, left, right, k);
        assert(merges[k].0 == left && merges[k].1 == right);
    }
}

/// The rank of the adjacent pair of `parts` at `i`.
pub open spec fn pair_rank(
    merges: Seq<(Seq<char>, Seq<char>, nat)>,
    parts: Seq<Seq<char>>,
    i: int,
) -> Option<nat> {
    merge_rank(merges, parts[i], parts[i + 1])
}

/// The pair at `i` is the one to merge next: it has the lowest rank, and it
/// is the leftmost of the pairs with that rank.
pub open spec fn is_best_pair(
    merges: Seq<(Seq<char>, Seq<char>, nat)>,
    parts: Seq<Seq<char>>,
    i: int,
) -> bool {
    &&& 0 <= i < parts.len() - 1
    &&& pair_rank(merges, parts, i) is Some
    &&& forall|j: int|
        0 <= j < i && (#[trigger] pair_rank(merges, parts, j)) is Some ==> pair_rank(
            merges,
            parts,
            j,
        )->0 > pair_rank(merges, parts, i)->0
    &&& forall|j: int|
        i < j < parts.len() - 1 && (#[trigger] pair_rank(merges, parts, j)) is Some ==> pair_rank(
            merges,
            parts,
            j,
        )->0 >= pair_rank(merges, parts, i)->0
}

/// `parts` with the pieces at `i` and `i + 1` joined.
pub open spec fn merge_at(parts: Seq<Seq<char>>, i: int) -> Seq<Seq<char>> {
    parts.take(i).push(parts[i] + parts[i + 1]) + parts.skip(i + 2)
}

/// Applies the merge rules to `parts` until no adjacent pair has a rule.
pub open spec fn bpe_merge(merges: Seq<(Seq<char>, Seq<char>, nat)>, parts: Seq<Seq<char>>) -> Seq<
    Seq<char>,
>
    decreases parts.len(),
{
    if exists|i: int| is_best_pair(merges, parts, i) {
        let i = choose|i: int| is_best_pair(merges, parts, i);
        if merge_at(parts, i).len() < parts.len() {
            bpe_merge(merges, merge_at(parts, i))
        } else {
            parts
        }
    } else {
        parts
    }
}

/// Each character of `word` as a piece of its own.
pub open spec fn singletons(word: Seq<char>) -> Seq<Seq<char>> {
    word.map_values(|c: char| seq![c])
}

/// The plain view of stored pieces.
pub open spec fn pieces_view(v: Seq<Vec<char>>) -> Seq<Seq<char>> {
    v.map_values(|p: Vec<char>| p@)
}

/// There is at most one best pair.
proof fn lemma_best_pair_unique(
    merges: Seq<(Seq<char>, Seq<char>, nat)>,
    parts: Seq<Seq<char>>,
    i: int,
    k: int,
)
    requires
        is_best_pair(merges, parts, i),
        is_best_pair(merges, parts, k),
    ensures
        i == k,
{
    if i < k {
        assert(pair_rank(merges, parts, i) is Some);
    } else if k < i {
        assert(pair_rank(merges, parts, k) is Some);
    }
}

/// BPE joins the leftmost of the pairs with the lowest rank first: when the
/// adjacent pair at `i` has a rule, every pair to its left has no rule or a
/// strictly higher rank, and every pair to its right has no rule or a rank
/// at least as high, then BPE of `parts` is BPE of `parts` with the pieces
/// at `i` and `i + 1` joined into one.
pub proof fn lemma_bpe_joins_leftmost_lowest_pair(
    merges: Seq<(Seq<char>, Seq<char>, nat)>,
    parts: Seq<Seq<char>>,
    i: int,
)
    requires
        0 <= i < parts.len() - 1,
        merge_rank(merges, parts[i], parts[i + 1]) is Some,
        forall|j: int|
            0 <= j < i && (#[trigger] merge_rank(merges, parts[j], parts[j + 1])) is Some
                ==> merge_rank(merges, parts[j], parts[j + 1])->0 > merge_rank(
                merges,
                parts[i],
                parts[i + 1],
            )->0,
        forall|j: int|
            i < j < parts.len() - 1 && (#[trigger] merge_rank(merges, parts[j], parts[j + 1])) is Some
                ==> merge_rank(merges, parts[j], parts[j + 1])->0 >= merge_rank(
                merges,
                parts[i],
                parts[i + 1],
            )->0,
    ensures
        bpe_merge(merges, parts) == bpe_merge(
            merges,
            parts.take(i).push(parts[i] + parts[i + 1]) + parts.skip(i + 2),
        ),
{
    assert forall|j: int| 0 <= j < i && (#[trigger] pair_rank(merges, parts, j)) is Some implies pair_rank(
        merges,
        parts,
        j,
    )->0 > pair_rank(merges, parts, i)->0 by {
        assert(merge_rank(merges, parts[j], parts[j + 1]) is Some);
    }
    assert forall|j: int|
        i < j < parts.len() - 1 && (#[trigger] pair_rank(merges, parts, j)) is Some implies pair_rank(
        merges,
        parts,
        j,
    )->0 >= pair_rank(merges, parts, i)->0 by {
        assert(merge_rank(merges, parts[j], parts[j + 1]) is Some);
    }
    assert(is_best_pair(merges, parts, i));
    let k = choose|k: int| is_best_pair(merges, parts, k);
    lemma_best_pair_unique(merges, parts, i, k);
    lemma_merge_at_len(parts, i);
}

/// BPE stops when no adjacent pair has a rule: the pieces come back as they
/// are.
pub proof fn lemma_bpe_stops_without_rules(merges: Seq<(Seq<char>, Seq<char>, nat)>, parts: Seq<Seq<char>>)
    requires
        forall|j: int| 0 <= j < parts.len() - 1 ==> (#[trigger] merge_rank(merges, parts[j], parts[j + 1])) is None,
    ensures
        bpe_merge(merges, parts) == parts,
{
    if exists|i: int| is_best_pair(merges, parts, i) {
        let i = choose|i: int| is_best_pair(merges, parts, i);
        assert(merge_rank(merges, parts[i], parts[i + 1]) is None);
    }
}

proof fn lemma_merge_at_len(parts: Seq<Seq<char>>, i: int)
    requires
        0 <= i < parts.len() - 1,
    ensures
        merge_at(parts, i).len() == parts.len() - 1,
{
}

/// Whether two texts are equal.
fn same_text(a: &Vec<char>, b: &Vec<char>) -> (r: bool)
    ensures
        r == (a@ == b@),
{
    if a.len() != b.len() {
        return false;
    }
    let mut i: usize = 0;
    while i < a.len()
        invariant
            a.len() == b.len(),
            i <= a.len(),
            forall|j: int| 0 <= j < i ==> a@[j] == b@[j],
        decreases a.len() - i,
    {
        if a[i] != b[i] {
            return false;
        }
        i = i + 1;
    }
    assert(a@ =~= b@);
    true
}

// ---------------------------------------------------------------------------
// Pre-splitting, spelling and lookups
// ---------------------------------------------------------------------------

/// GPT-2's rule for pre-splitting text into words, numbers, punctuation and
/// spaces.
pub const PATTERN: &'static str = "'s|'t|'re|'ve|'m|'ll|'d| ?\\p{L}+| ?\\p{N}+| ?[^\\s\\p{L}\\p{N}]+|\\s+(?!\\S)|\\s+";

/// The pattern that encoding hands to fancy_regex starts with the seven
/// English contractions `'s 't 're 've 'm 'll 'd`, each an alternative of
/// its own and ahead of the word, number, punctuation and space
/// alternatives, so that a contraction is tried first at every position.
pub proof fn lemma_pattern_starts_with_contractions()
    ensures
        PATTERN@.len() > 24,
        PATTERN@.take(24) == seq![
            '\'', 's', '|',
            '\'', 't', '|',
            '\'', 'r', 'e', '|',
            '\'', 'v', 'e', '|',
            '\'', 'm', '|',
            '\'', 'l', 'l', '|',
            '\'', 'd', '|',
        ],
        PATTERN@[24] == ' ',
{
    reveal_strlit("'s|'t|'re|'ve|'m|'ll|'d| ?\\p{L}+| ?\\p{N}+| ?[^\\s\\p{L}\\p{N}]+|\\s+(?!\\S)|\\s+");
    assert(PATTERN@.take(24) =~= seq![
        '\'', 's', '|',
        '\'', 't', '|',
        '\'', 'r', 'e', '|',
        '\'', 'v', 'e', '|',
        '\'', 'm', '|',
        '\'', 'l', 'l', '|',
        '\'', 'd', '|',
    ]);
}

/// What fancy_regex finds with `pattern` in `text`: the UTF-8 bytes of each
/// match of `find_iter` in order, up to the first failure, and the message
/// of the failure (of `Regex::new` or of the search) that ended it, if one
/// did.
pub uninterp spec fn pretokenize(pattern: Seq<char>, text: Seq<char>) -> (
    Seq<Seq<u8>>,
    Option<Seq<char>>,
);

/// Compiles `pattern` with `fancy_regex::Regex::new` and collects the
/// matches of `find_iter` on `text` as bytes, stopping at the first error.
/// The contract ties the matches and the error message to the named split
/// of the text by the pattern.
#[verifier::external_body]
fn split_words(pattern: &str, text: &str) -> (r: (Vec<Vec<u8>>, Option<String>))
    ensures
        split_view(&r) == pretokenize(pattern@, text@),
{
    let mut pieces = Vec::new();
    let re = match fancy_regex::Regex::new(pattern) {
        Ok(re) => re,
        Err(e) => return (pieces, Some(e.to_string())),
    };
    for found in re.find_iter(text) {
        match found {
            Ok(m) => pieces.push(m.as_str().as_bytes().to_vec()),
            Err(e) => return (pieces, Some(e.to_string())),
        }
    }
    (pieces, None)
}

/// The plain view of a split: each piece's bytes, and the failure's
/// message.
pub open spec fn split_view(split: &(Vec<Vec<u8>>, Option<String>)) -> (Seq<Seq<u8>>, Option<Seq<char>>) {
    (
        split.0@.map_values(|p: Vec<u8>| p@),
        match split.1 {
            Some(m) => Some(m@),
            None => None,
        },
    )
}

/// What `String::from_utf8_lossy` makes of `bytes`.
pub uninterp spec fn utf8_lossy(bytes: Seq<u8>) -> Seq<char>;

/// `String::from_utf8_lossy(bytes).into_owned()`: the text the bytes spell,
/// with each invalid sequence replaced by U+FFFD. Stated here: the result is
/// the named one, and valid UTF-8 comes back exactly as it decodes.
#[verifier::external_body]
fn string_from_utf8_lossy(bytes: &[u8]) -> (s: String)
    ensures
        s@ == utf8_lossy(bytes@),
        vstd::utf8::valid_utf8(bytes@) ==> s@ == vstd::utf8::decode_utf8(bytes@),
{
    String::from_utf8_lossy(bytes).into_owned()
}

/// The visible characters that spell `bytes`.
pub open spec fn spell(table: Seq<char>, bytes: Seq<u8>) -> Seq<char> {
    bytes.map_values(|b: u8| table[b as int])
}

/// The tokens BPE makes of one pre-split piece.
pub open spec fn piece_tokens(
    merges: Seq<(Seq<char>, Seq<char>, nat)>,
    table: Seq<char>,
    piece: Seq<u8>,
) -> Seq<Seq<char>> {
    bpe_merge(merges, singletons(spell(table, piece)))
}

/// The tokens of all pieces, in order.
pub open spec fn all_tokens(
    merges: Seq<(Seq<char>, Seq<char>, nat)>,
    table: Seq<char>,
    pieces: Seq<Seq<u8>>,
) -> Seq<Seq<char>> {
    pieces.map_values(|p: Seq<u8>| piece_tokens(merges, table, p)).flatten()
}

/// The ids of `tokens`, or the first token that has none.
pub open spec fn lookup_ids(vocab: Seq<(Seq<char>, u32)>, tokens: Seq<Seq<char>>) -> Result<
    Seq<u32>,
    Seq<char>,
>
    decreases tokens.len(),
{
    if tokens.len() == 0 {
        Ok(Seq::empty())
    } else {
        match lookup_ids(vocab, tokens.drop_last()) {
            Err(t) => Err(t),
            Ok(ids) => match vocab_id(vocab, tokens.last()) {
                Some(id) => Ok(ids.push(id)),
                None => Err(tokens.last()),
            },
        }
    }
}

/// What encoding gives for a pre-split text: the ids of all tokens of all
/// pieces; otherwise the first token not in the vocabulary, or, when all
/// tokens were found, the pattern failure that cut the split short.
pub open spec fn encode_result(
    vocab: Seq<(Seq<char>, u32)>,
    merges: Seq<(Seq<char>, Seq<char>, nat)>,
    table: Seq<char>,
    split: (Seq<Seq<u8>>, Option<Seq<char>>),
) -> Result<Seq<u32>, TokenizerFault> {
    match lookup_ids(vocab, all_tokens(merges, table, split.0)) {
        Err(t) => Err(TokenizerFault::TokenNotInVocab(t)),
        Ok(ids) => match split.1 {
            Some(m) => Err(TokenizerFault::BadPattern(m)),
            None => Ok(ids),
        },
    }
}

/// `b` is the first byte that `c` spells.
pub open spec fn is_first_byte_of(table: Seq<char>, c: char, b: int) -> bool {
    &&& 0 <= b < 256
    &&& table[b] == c
    &&& forall|j: int| 0 <= j < b ==> table[j] != c
}

/// The byte that character `c` spells, if any.
pub open spec fn char_byte(table: Seq<char>, c: char) -> Option<u8> {
    if exists|b: int| is_first_byte_of(table, c, b) {
        Some((choose|b: int| is_first_byte_of(table, c, b)) as u8)
    } else {
        None
    }
}

/// `decoder` maps the code of each character of `table` back to its byte,
/// and holds nothing else.
pub open spec fn inverts_table(table: Seq<char>, decoder: Map<u32, u8>) -> bool {
    &&& forall|b: int|
        0 <= b < table.len() ==> decoder.contains_key(#[trigger] table[b] as u32) && decoder[table[b] as u32]
            == b as u8
    &&& forall|code: u32|
        #[trigger] decoder.contains_key(code) ==> decoder[code] < table.len() && table[decoder[code] as int]
            as u32 == code
}

/// The code -> byte map of the byte table.
fn build_byte_decoder(table: &[char; 256]) -> (d: HashMap<u32, u8>)
    requires
        forall|b: int| 0 <= b < 256 ==> #[trigger] table@[b] as int == byte_char_code(b),
    ensures
        inverts_table(table@, d@),
{
    broadcast use vstd::std_specs::hash::group_hash_axioms;

    let mut d: HashMap<u32, u8> = HashMap::new();
    let mut b: usize = 0;
    while b < 256
        invariant
            b <= 256,
            table@.len() == 256,
            forall|x: int| 0 <= x < 256 ==> #[trigger] table@[x] as int == byte_char_code(x),
            inverts_table(table@.take(b as int), d@),
        decreases 256 - b,
    {
        let code: u32 = table[b] as u32;
        let ghost before = d@;
        d.insert(code, b as u8);
        proof {
            let t = table@.take(b + 1);
            assert forall|x: int| 0 <= x < t.len() implies d@.contains_key(#[trigger] t[x] as u32) && d@[t[x] as u32]
                == x as u8 by {
                if x < b {
                    lemma_byte_char_code_injective(x, b as int);
                    assert(table@[x] as int != table@[b as int] as int);
                    lemma_unprintable_below_bounds(x);
                    lemma_unprintable_below_bounds(b as int);
                    assert(table@[x] as int <= 512 && table@[b as int] as int <= 512);
                    assert(table@[x] as u32 != code);
                    assert(table@.take(b as int)[x] == t[x]);
                    assert(before.contains_key(t[x] as u32));
                } else {
                    assert(t[x] as u32 == code);
                }
            }
            assert forall|c: u32| #[trigger] d@.contains_key(c) implies d@[c] < t.len() && t[d@[c] as int] as u32 == c by {
                if c != code {
                    assert(before.contains_key(c));
                    assert(table@.take(b as int)[before[c] as int] == t[before[c] as int]);
                }
            }
        }
        b = b + 1;
    }
    proof {
        assert(table@.take(256) =~= table@);
    }
    d
}

/// The bytes a token spells, or its first character that spells none.
pub open spec fn token_bytes(table: Seq<char>, token: Seq<char>) -> Result<Seq<u8>, char>
    decreases token.len(),
{
    if token.len() == 0 {
        Ok(Seq::empty())
    } else {
        match token_bytes(table, token.drop_last()) {
            Err(c) => Err(c),
            Ok(bs) => match char_byte(table, token.last()) {
                Some(b) => Ok(bs.push(b)),
                None => Err(token.last()),
            },
        }
    }
}

/// The bytes that `ids` spell, or the first id or character that fails.
pub open spec fn decode_bytes(
    vocab: Seq<(Seq<char>, u32)>,
    table: Seq<char>,
    ids: Seq<u32>,
) -> Result<Seq<u8>, TokenizerFault>
    decreases ids.len(),
{
    if ids.len() == 0 {
        Ok(Seq::empty())
    } else {
        match decode_bytes(vocab, table, ids.drop_last()) {
            Err(f) => Err(f),
            Ok(bs) => match vocab_token(vocab, ids.last()) {
                None => Err(TokenizerFault::IdNotInVocab(ids.last())),
                Some(t) => match token_bytes(table, t) {
                    Err(c) => Err(TokenizerFault::CharNotInByteTable(c)),
                    Ok(tb) => Ok(bs + tb),
                },
            },
        }
    }
}

// ---------------------------------------------------------------------------
// The tokenizer
// ---------------------------------------------------------------------------

/// Why loading, encoding or decoding failed.
#[derive(Debug)]
pub enum TokenizerError {
    /// vocab.json is not a JSON object of token ids (serde_json's message).
    BadVocab(String),
    /// A merges.txt line without a space.
    BadMergeLine(Vec<char>),
    /// A token that BPE produced is not in the vocabulary.
    TokenNotInVocab(Vec<char>),
    /// An id to decode is not in the vocabulary.
    IdNotInVocab(u32),
    /// A token character that spells no byte.
    CharNotInByteTable(char),
    /// The pre-split pattern failed (fancy_regex's message).
    BadPattern(String),
}

/// The plain view of a [`TokenizerError`].
pub enum TokenizerFault {
    BadVocab(Seq<char>),
    BadMergeLine(Seq<char>),
    TokenNotInVocab(Seq<char>),
    IdNotInVocab(u32),
    CharNotInByteTable(char),
    BadPattern(Seq<char>),
}

impl View for TokenizerError {
    type V = TokenizerFault;

    open spec fn view(&self) -> TokenizerFault {
        match self {
            TokenizerError::BadVocab(m) => TokenizerFault::BadVocab(m@),
            TokenizerError::BadMergeLine(l) => TokenizerFault::BadMergeLine(l@),
            TokenizerError::TokenNotInVocab(t) => TokenizerFault::TokenNotInVocab(t@),
            TokenizerError::IdNotInVocab(id) => TokenizerFault::IdNotInVocab(*id),
            TokenizerError::CharNotInByteTable(c) => TokenizerFault::CharNotInByteTable(*c),
            TokenizerError::BadPattern(m) => TokenizerFault::BadPattern(m@),
        }
    }
}

/// GPT-2's byte-level BPE tokenizer.
pub struct Tokenizer {
    /// token text -> id, in ascending token order
    encoder: Vec<(Vec<char>, u32)>,
    /// token key -> the positions in `encoder` of the entries with that key
    vocab_index: HashMap<u64, Vec<usize>>,
    /// id -> token text (the reverse)
    decoder: HashMap<u32, Vec<char>>,
    /// (left, right, rank) merge rules in file order; lower rank merges first
    merges: Vec<(Vec<char>, Vec<char>, usize)>,
    /// pair key -> the positions in `merges` of the rules with that key
    merge_index: HashMap<u64, Vec<usize>>,
    /// byte -> visible char
    byte_encoder: [char; 256],
    /// visible char's code -> byte (the reverse)
    byte_decoder: HashMap<u32, u8>,
    /// whether no two vocabulary entries share an id
    ids_distinct: bool,
}

impl Tokenizer {
    /// The vocabulary: (token text, id) pairs.
    pub closed spec fn vocab(&self) -> Seq<(Seq<char>, u32)> {
        vocab_view(self.encoder@)
    }

    /// The merge rules with their ranks.
    pub closed spec fn ranked_merges(&self) -> Seq<(Seq<char>, Seq<char>, nat)> {
        merges_view(self.merges@)
    }

    /// The character that spells each byte.
    pub closed spec fn byte_table(&self) -> Seq<char> {
        self.byte_encoder@
    }

    /// The tables agree with each other.
    #[verifier::type_invariant]
    pub closed spec fn wf(&self) -> bool {
        &&& forall|b: int| 0 <= b < 256 ==> #[trigger] self.byte_encoder@[b] as int == byte_char_code(b)
        &&& forall|id: u32| #[trigger] self.decoder@.contains_key(id) == (vocab_token(self.vocab(), id) is Some)
        &&& forall|id: u32| #[trigger] self.decoder@.contains_key(id) ==> self.decoder@[id]@ == vocab_token(self.vocab(), id)->0
        &&& forall|i: int| 0 <= i < self.merges.len() ==> (#[trigger] self.merges[i]).2 < usize::MAX
        &&& indexes(merge_keys(self.ranked_merges()), self.merge_index@)
        &&& indexes(vocab_keys(self.vocab()), self.vocab_index@)
        &&& inverts_table(self.byte_encoder@, self.byte_decoder@)
        &&& self.ids_distinct == ids_unique(self.vocab())
    }

    /// The byte table of a well-formed tokenizer is [`byte_char_code`].
    pub proof fn lemma_byte_table(&self)
        requires
            self.wf(),
        ensures
            self.byte_table().len() == 256,
            forall|b: int| 0 <= b < 256 ==> #[trigger] self.byte_table()[b] as int == byte_char_code(b),
    {
    }

    /// Builds the tokenizer from the text of vocab.json (`{"!": 0, ...}`) and
    /// that of merges.txt (a version line, then one `left right` rule per
    /// line, ranked by line).
    pub fn from_texts(vocab_text: &str, merges_text: &str) -> (r: Result<Tokenizer, TokenizerError>)
        ensures
            match r {
                Ok(t) => {
                    &&& t.wf()
                    &&& vocab_json(vocab_text@) == Ok::<_, Seq<char>>(t.vocab())
                    &&& parse_merges(merges_text@) == Ok::<_, Seq<char>>(t.ranked_merges())
                },
                Err(e) => match e@ {
                    TokenizerFault::BadVocab(m) => vocab_json(vocab_text@) == Err::<
                        Seq<(Seq<char>, u32)>,
                        _,
                    >(m),
                    TokenizerFault::BadMergeLine(line) => {
                        &&& vocab_json(vocab_text@) is Ok
                        &&& parse_merges(merges_text@) == Err::<Seq<(Seq<char>, Seq<char>, nat)>, _>(line)
                    },
                    _ => false,
                },
            },
    {
        let encoder = match parse_vocab_json(vocab_text) {
            Ok(v) => v,
            Err(msg) => return Err(TokenizerError::BadVocab(msg)),
        };
        let decoder = build_decoder(&encoder);
        let merges = match read_merges(merges_text) {
            Ok(m) => m,
            Err(line) => return Err(TokenizerError::BadMergeLine(line)),
        };
        let merge_index = build_index(&merge_keys_of(&merges));
        let vocab_index = build_index(&vocab_keys_of(&encoder));
        let byte_encoder = bytes_to_unicode();
        let byte_decoder = build_byte_decoder(&byte_encoder);
        let ids_distinct = all_ids_distinct(&encoder);
        Ok(
            Tokenizer {
                encoder,
                vocab_index,
                decoder,
                merges,
                merge_index,
                byte_encoder,
                byte_decoder,
                ids_distinct,
            },
        )
    }
}


impl Tokenizer {
    /// The rank of the pair (`left`, `right`), or `usize::MAX` when no rule
    /// merges it.
    fn rank_of(&self, left: &Vec<char>, right: &Vec<char>) -> (r: usize)
        requires
            self.wf(),
        ensures
            match merge_rank(self.ranked_merges(), left@, right@) {
                Some(k) => r == k && r < usize::MAX,
                None => r == usize::MAX,
            },
    {
        broadcast use vstd::std_specs::hash::group_hash_axioms;

        let ghost m = self.ranked_merges();
        let ghost keys = merge_keys(m);
        let k = pair_key_of(left, right);
        let bucket = match self.merge_index.get(&k) {
            Some(b) => b,
            None => {
                proof {
                    if exists|j: int| is_last_rule(m, left@, right@, j) {
                        let j = choose|j: int| is_last_rule(m, left@, right@, j);
                        assert(keys[j] == k);
                    }
                }
                return usize::MAX;
            },
        };
        proof {
            assert(self.merge_index@.contains_key(k) && self.merge_index@[k] == *bucket);
            assert(is_bucket(keys, k, bucket@));
        }
        let mut p = bucket.len();
        while p > 0
            invariant
                p <= bucket.len(),
                self.wf(),
                m == self.ranked_merges(),
                m.len() == self.merges.len(),
                keys == merge_keys(m),
                k == pair_key(left@, right@),
                is_bucket(keys, k, bucket@),
                self.merge_index@.contains_key(k) && self.merge_index@[k]@ == bucket@,
                forall|q: int| p <= q < bucket.len() ==> !(#[trigger] m[bucket@[q] as int].0 == left@ && m[bucket@[q] as int].1 == right@),
            decreases p,
        {
            p = p - 1;
            let i = bucket[p];
            if same_text(&self.merges[i].0, left) && same_text(&self.merges[i].1, right) {
                proof {
                    assert forall|j: int| i < j < m.len() implies !(#[trigger] m[j].0 == left@ && m[j].1 == right@) by {
                        if m[j].0 == left@ && m[j].1 == right@ {
                            assert(keys[j] == k);
                            assert(self.merge_index@[keys[j]]@.contains(j as usize));
                            let q = choose|q: int| 0 <= q < bucket@.len() && bucket@[q] == j as usize;
                            lemma_bucket_order(bucket@, p as int, q);
                        }
                    }
                    assert(is_last_rule(m, left@, right@, i as int));
                    let k2 = choose|k2: int| is_last_rule(m, left@, right@, k2);
                    if k2 < i {
                        assert(!(m[i as int].0 == left@ && m[i as int].1 == right@));
                    } else if k2 > i {
                        assert(m[k2].0 == left@ && m[k2].1 == right@);
                    }
                    assert(m[i as int].2 == self.merges@[i as int].2 as nat);
                    assert(self.merges[i as int].2 < usize::MAX);
                }
                return self.merges[i].2;
            }
        }
        proof {
            if exists|j: int| is_last_rule(m, left@, right@, j) {
                let j = choose|j: int| is_last_rule(m, left@, right@, j);
                assert(keys[j] == k);
                assert(self.merge_index@[keys[j]]@.contains(j as usize));
                let q = choose|q: int| 0 <= q < bucket@.len() && bucket@[q] == j as usize;
                assert(!(m[bucket@[q] as int].0 == left@ && m[bucket@[q] as int].1 == right@));
            }
        }
        usize::MAX
    }

    /// Applies BPE merges to one pre-split word until no known pair is left.
    fn bpe(&self, word: &Vec<char>) -> (parts: Vec<Vec<char>>)
        requires
            self.wf(),
        ensures
            pieces_view(parts@) == bpe_merge(self.ranked_merges(), singletons(word@)),
    {
        let ghost m = self.ranked_merges();
        let mut parts: Vec<Vec<char>> = Vec::new();
        let mut w: usize = 0;
        while w < word.len()
            invariant
                w <= word.len(),
                pieces_view(parts@) == singletons(word@.take(w as int)),
            decreases word.len() - w,
        {
            let mut one: Vec<char> = Vec::new();
            one.push(word[w]);
            let ghost prev = parts@;
            parts.push(one);
            proof {
                assert(pieces_view(parts@) =~= pieces_view(prev).push(seq![word@[w as int]]));
                assert(singletons(word@.take(w + 1)) =~= singletons(word@.take(w as int)).push(
                    seq![word@[w as int]],
                ));
            }
            w = w + 1;
        }
        proof {
            assert(word@.take(word.len() as int) == word@);
        }
        loop
            invariant
                m == self.ranked_merges(),
                self.wf(),
                bpe_merge(m, pieces_view(parts@)) == bpe_merge(m, singletons(word@)),
            ensures
                pieces_view(parts@) == bpe_merge(m, singletons(word@)),
            decreases parts.len(),
        {
            let ghost pv = pieces_view(parts@);
            // find the adjacent pair with the lowest rank
            let mut best_rank: usize = usize::MAX;
            let mut best_pos: Option<usize> = None;
            let mut i: usize = 0;
            while i + 1 < parts.len()
                invariant
                    m == self.ranked_merges(),
                    self.wf(),
                    pv == pieces_view(parts@),
                    i == 0 || i < parts.len(),
                    match best_pos {
                        None => {
                            &&& best_rank == usize::MAX
                            &&& forall|j: int| 0 <= j < i ==> (#[trigger] pair_rank(m, pv, j)) is None
                        },
                        Some(p) => {
                            &&& p < i
                            &&& pair_rank(m, pv, p as int) == Some(best_rank as nat)
                            &&& forall|j: int|
                                0 <= j < p && (#[trigger] pair_rank(m, pv, j)) is Some ==> pair_rank(
                                    m,
                                    pv,
                                    j,
                                )->0 > best_rank
                            &&& forall|j: int|
                                p < j < i && (#[trigger] pair_rank(m, pv, j)) is Some ==> pair_rank(
                                    m,
                                    pv,
                                    j,
                                )->0 >= best_rank
                        },
                    },
                decreases parts.len() - i,
            {
                let rank = self.rank_of(&parts[i], &parts[i + 1]);
                proof {
                    assert(pv[i as int] == parts@[i as int]@);
                    assert(pv[i + 1] == parts@[i + 1]@);
                }
                if rank < best_rank {
                    best_rank = rank;
                    best_pos = Some(i);
                }
                i = i + 1;
            }
            match best_pos {
                None => {
                    proof {
                        if exists|k: int| is_best_pair(m, pv, k) {
                            let k = choose|k: int| is_best_pair(m, pv, k);
                            assert(pair_rank(m, pv, k) is Some);
                        }
                    }
                    break ;
                },
                Some(p) => {
                    proof {
                        assert(is_best_pair(m, pv, p as int));
                        let k = choose|k: int| is_best_pair(m, pv, k);
                        lemma_best_pair_unique(m, pv, p as int, k);
                        lemma_merge_at_len(pv, p as int);
                    }
                    let mut right = parts.remove(p + 1);
                    let mut left = parts.remove(p);
                    let ghost lv = left@;
                    let ghost rv = right@;
                    left.append(&mut right);
                    parts.insert(p, left);
                    proof {
                        assert(lv == pv[p as int]);
                        assert(rv == pv[p + 1]);
                        assert(pieces_view(parts@) =~= merge_at(pv, p as int));
                    }
                },
            }
        }
        parts
    }
}


proof fn lemma_lookup_ids_error_sticks(
    vocab: Seq<(Seq<char>, u32)>,
    a: Seq<Seq<char>>,
    b: Seq<Seq<char>>,
)
    requires
        lookup_ids(vocab, a) is Err,
    ensures
        lookup_ids(vocab, a + b) == lookup_ids(vocab, a),
    decreases b.len(),
{
    if b.len() > 0 {
        lemma_lookup_ids_error_sticks(vocab, a, b.drop_last());
        assert((a + b).drop_last() == a + b.drop_last());
    }
}

proof fn lemma_token_bytes_error_sticks(table: Seq<char>, t: Seq<char>, n: int)
    requires
        0 <= n <= t.len(),
        token_bytes(table, t.take(n)) is Err,
    ensures
        token_bytes(table, t) == token_bytes(table, t.take(n)),
    decreases t.len() - n,
{
    if n < t.len() {
        assert(t.take(n + 1).drop_last() == t.take(n));
        lemma_token_bytes_error_sticks(table, t, n + 1);
    } else {
        assert(t.take(n) == t);
    }
}

proof fn lemma_decode_bytes_error_sticks(
    vocab: Seq<(Seq<char>, u32)>,
    table: Seq<char>,
    ids: Seq<u32>,
    n: int,
)
    requires
        0 <= n <= ids.len(),
        decode_bytes(vocab, table, ids.take(n)) is Err,
    ensures
        decode_bytes(vocab, table, ids) == decode_bytes(vocab, table, ids.take(n)),
    decreases ids.len() - n,
{
    if n < ids.len() {
        assert(ids.take(n + 1).drop_last() == ids.take(n));
        lemma_decode_bytes_error_sticks(vocab, table, ids, n + 1);
    } else {
        assert(ids.take(n) == ids);
    }
}

/// The tokens of the first `p + 1` pieces are those of the first `p`
/// followed by those of piece `p`.
proof fn lemma_all_tokens_step(
    merges: Seq<(Seq<char>, Seq<char>, nat)>,
    table: Seq<char>,
    pieces: Seq<Seq<u8>>,
    p: int,
)
    requires
        0 <= p < pieces.len(),
    ensures
        all_tokens(merges, table, pieces.take(p + 1)) == all_tokens(merges, table, pieces.take(p))
            + piece_tokens(merges, table, pieces[p]),
{
    let f = |q: Seq<u8>| piece_tokens(merges, table, q);
    assert(pieces.take(p + 1).map_values(f) == pieces.take(p).map_values(f).push(f(pieces[p])));
    pieces.take(p).map_values(f).lemma_flatten_push(f(pieces[p]));
}

/// The tokens of all pieces begin with those of the first `p`.
proof fn lemma_all_tokens_prefix(
    merges: Seq<(Seq<char>, Seq<char>, nat)>,
    table: Seq<char>,
    pieces: Seq<Seq<u8>>,
    p: int,
)
    requires
        0 <= p <= pieces.len(),
    ensures
        all_tokens(merges, table, pieces) == all_tokens(merges, table, pieces.take(p))
            + all_tokens(merges, table, pieces.skip(p)),
{
    let f = |q: Seq<u8>| piece_tokens(merges, table, q);
    assert(pieces.map_values(f) == pieces.take(p).map_values(f) + pieces.skip(p).map_values(f));
    vstd::seq_lib::lemma_flatten_concat(pieces.take(p).map_values(f), pieces.skip(p).map_values(f));
}

impl Tokenizer {
    /// The id of `token`, if it is in the vocabulary.
    fn id_of(&self, token: &Vec<char>) -> (r: Option<u32>)
        ensures
            r == vocab_id(self.vocab(), token@),
    {
        broadcast use vstd::std_specs::hash::group_hash_axioms;

        proof {
            use_type_invariant(self);
        }
        let ghost v = self.vocab();
        let ghost keys = vocab_keys(v);
        let k = token_key_of(token);
        let bucket = match self.vocab_index.get(&k) {
            Some(b) => b,
            None => {
                proof {
                    if exists|j: int| is_first_token_entry(v, token@, j) {
                        let j = choose|j: int| is_first_token_entry(v, token@, j);
                        assert(keys[j] == k);
                    }
                }
                return None;
            },
        };
        proof {
            assert(self.vocab_index@.contains_key(k) && self.vocab_index@[k] == *bucket);
        }
        let mut p: usize = 0;
        while p < bucket.len()
            invariant
                p <= bucket.len(),
                self.wf(),
                v == self.vocab(),
                v.len() == self.encoder.len(),
                keys == vocab_keys(v),
                k == token_key(token@),
                is_bucket(keys, k, bucket@),
                self.vocab_index@.contains_key(k) && self.vocab_index@[k]@ == bucket@,
                forall|q: int| 0 <= q < p ==> (#[trigger] v[bucket@[q] as int]).0 != token@,
            decreases bucket.len() - p,
        {
            let i = bucket[p];
            if same_text(&self.encoder[i].0, token) {
                proof {
                    assert forall|j: int| 0 <= j < i implies (#[trigger] v[j]).0 != token@ by {
                        if v[j].0 == token@ {
                            assert(keys[j] == k);
                            assert(self.vocab_index@[keys[j]]@.contains(j as usize));
                            let q = choose|q: int| 0 <= q < bucket@.len() && bucket@[q] == j as usize;
                            lemma_bucket_order(bucket@, q, p as int);
                        }
                    }
                    assert(is_first_token_entry(v, token@, i as int));
                    let k2 = choose|k2: int| is_first_token_entry(v, token@, k2);
                    if k2 < i {
                        assert(v[k2].0 != token@);
                    } else if k2 > i {
                        assert(v[i as int].0 == token@);
                    }
                }
                return Some(self.encoder[i].1);
            }
            p = p + 1;
        }
        proof {
            if exists|j: int| is_first_token_entry(v, token@, j) {
                let j = choose|j: int| is_first_token_entry(v, token@, j);
                assert(keys[j] == k);
                assert(self.vocab_index@[keys[j]]@.contains(j as usize));
                let q = choose|q: int| 0 <= q < bucket@.len() && bucket@[q] == j as usize;
                assert(v[bucket@[q] as int].0 != token@);
            }
        }
        None
    }

    /// The byte that character `c` spells, if any.
    fn byte_of(&self, c: char) -> (r: Option<u8>)
        ensures
            r == char_byte(self.byte_table(), c),
    {
        broadcast use vstd::std_specs::hash::group_hash_axioms;

        proof {
            use_type_invariant(self);
        }
        let ghost t = self.byte_table();
        let code: u32 = c as u32;
        match self.byte_decoder.get(&code) {
            Some(b) => {
                let b: u8 = *b;
                proof {
                    assert(self.byte_decoder@.contains_key(code));
                    assert(t[b as int] as u32 == c as u32);
                    lemma_unprintable_below_bounds(b as int);
                    assert(t[b as int] as int <= 512);
                    assert(t[b as int] as int == c as int);
                    assert(t[b as int] == c);
                    assert forall|j: int| 0 <= j < b implies t[j] != c by {
                        if t[j] == c {
                            assert(self.byte_decoder@[t[j] as u32] == j as u8);
                        }
                    }
                    assert(is_first_byte_of(t, c, b as int));
                    let k = choose|k: int| is_first_byte_of(t, c, k);
                    if k < b {
                        assert(t[k] != c);
                    } else if k > b {
                        assert(t[b as int] == c);
                    }
                }
                Some(b)
            },
            None => {
                proof {
                    if exists|k: int| is_first_byte_of(t, c, k) {
                        let k = choose|k: int| is_first_byte_of(t, c, k);
                        assert(self.byte_decoder@.contains_key(t[k] as u32));
                    }
                }
                None
            },
        }
    }

    /// The visible characters that spell `bytes`.
    fn spell_bytes(&self, bytes: &Vec<u8>) -> (w: Vec<char>)
        ensures
            w@ == spell(self.byte_table(), bytes@),
    {
        let mut w: Vec<char> = Vec::new();
        let mut i: usize = 0;
        while i < bytes.len()
            invariant
                i <= bytes.len(),
                w@ == spell(self.byte_table(), bytes@.take(i as int)),
            decreases bytes.len() - i,
        {
            w.push(self.byte_encoder[bytes[i] as usize]);
            i = i + 1;
            proof {
                assert(w@ =~= spell(self.byte_table(), bytes@.take(i as int)));
            }
        }
        proof {
            assert(bytes@.take(bytes.len() as int) == bytes@);
        }
        w
    }

    /// Pre-splits `text`, merges each piece's characters with BPE, and looks
    /// up each token's id.
    pub fn encode(&self, text: &str) -> (r: Result<Vec<u32>, TokenizerError>)
        ensures
            match r {
                Ok(ids) => encode_result(
                    self.vocab(),
                    self.ranked_merges(),
                    self.byte_table(),
                    pretokenize(PATTERN@, text@),
                ) == Ok::<_, TokenizerFault>(ids@),
                Err(e) => encode_result(
                    self.vocab(),
                    self.ranked_merges(),
                    self.byte_table(),
                    pretokenize(PATTERN@, text@),
                ) == Err::<Seq<u32>, _>(e@),
            },
    {
        let split = split_words(PATTERN, text);
        self.encode_split(&split)
    }

    /// Encodes a pre-split text: the pieces' bytes in order, and the message
    /// of the pattern failure that cut the split short, if one did.
    pub fn encode_split(&self, split: &(Vec<Vec<u8>>, Option<String>)) -> (r: Result<
        Vec<u32>,
        TokenizerError,
    >)
        ensures
            match r {
                Ok(ids) => encode_result(
                    self.vocab(),
                    self.ranked_merges(),
                    self.byte_table(),
                    split_view(split),
                ) == Ok::<_, TokenizerFault>(ids@),
                Err(e) => encode_result(
                    self.vocab(),
                    self.ranked_merges(),
                    self.byte_table(),
                    split_view(split),
                ) == Err::<Seq<u32>, _>(e@),
            },
    {
        proof {
            use_type_invariant(self);
        }
        let pieces = &split.0;
        let ghost v = self.vocab();
        let ghost m = self.ranked_merges();
        let ghost t = self.byte_table();
        let ghost pv = pieces@.map_values(|q: Vec<u8>| q@);
        let ghost total = all_tokens(m, t, pv);
        let mut ids: Vec<u32> = Vec::new();
        let mut p: usize = 0;
        proof {
            assert(pv.take(0) =~= Seq::<Seq<u8>>::empty());
            assert(pv.take(0).map_values(|q: Seq<u8>| piece_tokens(m, t, q)) =~= Seq::empty());
            assert(all_tokens(m, t, pv.take(0)) =~= Seq::empty());
        }
        while p < pieces.len()
            invariant
                p <= pieces.len(),
                self.wf(),
                v == self.vocab(),
                m == self.ranked_merges(),
                t == self.byte_table(),
                pv == pieces@.map_values(|q: Vec<u8>| q@),
                split_view(split).0 == pv,
                total == all_tokens(m, t, pv),
                lookup_ids(v, all_tokens(m, t, pv.take(p as int))) == Ok::<_, Seq<char>>(ids@),
            decreases pieces.len() - p,
        {
            let word = self.spell_bytes(&pieces[p]);
            let tokens = self.bpe(&word);
            let ghost done = all_tokens(m, t, pv.take(p as int));
            let ghost tv = pieces_view(tokens@);
            proof {
                assert(tv == piece_tokens(m, t, pv[p as int]));
                lemma_all_tokens_step(m, t, pv, p as int);
                assert(done + tv.take(0) == done);
            }
            let mut j: usize = 0;
            while j < tokens.len()
                invariant
                    j <= tokens.len(),
                    p < pieces.len(),
                    v == self.vocab(),
                    m == self.ranked_merges(),
                    t == self.byte_table(),
                    pv == pieces@.map_values(|q: Vec<u8>| q@),
                    split_view(split).0 == pv,
                    total == all_tokens(m, t, pv),
                    done == all_tokens(m, t, pv.take(p as int)),
                    tv == pieces_view(tokens@),
                    all_tokens(m, t, pv.take(p + 1)) == done + tv,
                    lookup_ids(v, done + tv.take(j as int)) == Ok::<_, Seq<char>>(ids@),
                decreases tokens.len() - j,
            {
                proof {
                    assert((done + tv.take(j + 1)).drop_last() == done + tv.take(j as int));
                    assert((done + tv.take(j + 1)).last() == tokens@[j as int]@);
                }
                match self.id_of(&tokens[j]) {
                    None => {
                        let missing = copy_range(&tokens[j], 0, tokens[j].len());
                        proof {
                            assert(tokens@[j as int]@.subrange(0, tokens@[j as int]@.len() as int) =~= tokens@[j as int]@);
                            assert(missing@ == tokens@[j as int]@);
                            let x = done + tv.take(j + 1);
                            assert(lookup_ids(v, x) == Err::<Seq<u32>, _>(missing@));
                            lemma_all_tokens_prefix(m, t, pv, p + 1);
                            let rest = tv.skip(j + 1) + all_tokens(m, t, pv.skip(p + 1));
                            assert(total == x + rest);
                            lemma_lookup_ids_error_sticks(v, x, rest);
                        }
                        return Err(TokenizerError::TokenNotInVocab(missing));
                    },
                    Some(id) => {
                        ids.push(id);
                    },
                }
                j = j + 1;
            }
            proof {
                assert(tv.take(tokens.len() as int) == tv);
            }
            p = p + 1;
        }
        proof {
            assert(pv.take(pieces.len() as int) == pv);
        }
        match &split.1 {
            Some(msg) => Err(TokenizerError::BadPattern(msg.clone())),
            None => Ok(ids),
        }
    }

    /// Turns ids back into text: each id's token, each token character's
    /// byte, and the bytes read as UTF-8 (invalid sequences become U+FFFD).
    pub fn decode(&self, ids: &[u32]) -> (r: Result<String, TokenizerError>)
        ensures
            match r {
                Ok(s) => decode_bytes(self.vocab(), self.byte_table(), ids@) matches Ok(bs) && s@
                    == utf8_lossy(bs) && (vstd::utf8::valid_utf8(bs) ==> s@
                    == vstd::utf8::decode_utf8(bs)),
                Err(e) => decode_bytes(self.vocab(), self.byte_table(), ids@) == Err::<Seq<u8>, _>(
                    e@,
                ),
            },
    {
        proof {
            use_type_invariant(self);
        }
        broadcast use vstd::std_specs::hash::group_hash_axioms;

        let ghost v = self.vocab();
        let ghost t = self.byte_table();
        let mut bytes: Vec<u8> = Vec::new();
        let mut i: usize = 0;
        proof {
            assert(ids@.take(0) =~= Seq::<u32>::empty());
        }
        while i < ids.len()
            invariant
                i <= ids.len(),
                self.wf(),
                v == self.vocab(),
                t == self.byte_table(),
                decode_bytes(v, t, ids@.take(i as int)) == Ok::<_, TokenizerFault>(bytes@),
            decreases ids.len() - i,
        {
            let id = ids[i];
            proof {
                assert(ids@.take(i + 1).drop_last() == ids@.take(i as int));
                assert(ids@.take(i + 1).last() == id);
            }
            let token = match self.decoder.get(&id) {
                None => {
                    proof {
                        lemma_decode_bytes_error_sticks(v, t, ids@, i + 1);
                    }
                    return Err(TokenizerError::IdNotInVocab(id));
                },
                Some(token) => token,
            };
            let ghost tok = token@;
            let ghost before = bytes@;
            proof {
                assert(vocab_token(v, id) == Some(tok));
                assert(tok.take(0) =~= Seq::<char>::empty());
            }
            let mut k: usize = 0;
            while k < token.len()
                invariant
                    k <= token.len(),
                    i < ids.len(),
                    id == ids@[i as int],
                    tok == token@,
                    v == self.vocab(),
                    t == self.byte_table(),
                    vocab_token(v, id) == Some(tok),
                    ids@.take(i + 1).drop_last() == ids@.take(i as int),
                    ids@.take(i + 1).last() == id,
                    decode_bytes(v, t, ids@.take(i as int)) == Ok::<_, TokenizerFault>(before),
                    token_bytes(t, tok.take(k as int)) matches Ok(tb) && bytes@ == before + tb,
                decreases token.len() - k,
            {
                let c = token[k];
                proof {
                    assert(tok.take(k + 1).drop_last() == tok.take(k as int));
                    assert(tok.take(k + 1).last() == c);
                }
                match self.byte_of(c) {
                    None => {
                        proof {
                            lemma_token_bytes_error_sticks(t, tok, k + 1);
                            lemma_decode_bytes_error_sticks(v, t, ids@, i + 1);
                        }
                        return Err(TokenizerError::CharNotInByteTable(c));
                    },
                    Some(b) => {
                        bytes.push(b);
                    },
                }
                k = k + 1;
            }
            proof {
                assert(tok.take(token.len() as int) == tok);
            }
            i = i + 1;
        }
        proof {
            assert(ids@.take(ids.len() as int) == ids@);
        }
        Ok(string_from_utf8_lossy(bytes.as_slice()))
    }
}


// ---------------------------------------------------------------------------
// Laws
// ---------------------------------------------------------------------------

/// Reading the byte table backwards gives back the byte: the character that
/// spells byte `b` spells only `b`.
pub proof fn lemma_char_byte_inverts_table(table: Seq<char>, b: int)
    requires
        table.len() == 256,
        forall|x: int| 0 <= x < 256 ==> #[trigger] table[x] as int == byte_char_code(x),
        0 <= b < 256,
    ensures
        char_byte(table, table[b]) == Some(b as u8),
{
    assert forall|j: int| 0 <= j < b implies table[j] != table[b] by {
        lemma_byte_char_code_injective(j, b);
    }
    assert(is_first_byte_of(table, table[b], b));
    let k = choose|k: int| is_first_byte_of(table, table[b], k);
    if k != b {
        lemma_byte_char_code_injective(k, b);
    }
}

/// Joining two adjacent pieces keeps the text they spell together.
proof fn lemma_merge_at_keeps_text(parts: Seq<Seq<char>>, i: int)
    requires
        0 <= i < parts.len() - 1,
    ensures
        merge_at(parts, i).flatten() == parts.flatten(),
{
    let a = parts.take(i);
    let c = parts.skip(i + 2);
    let x = parts[i];
    let y = parts[i + 1];
    assert(parts == a.push(x).push(y) + c);
    vstd::seq_lib::lemma_flatten_concat(a.push(x).push(y), c);
    a.push(x).lemma_flatten_push(y);
    a.lemma_flatten_push(x);
    vstd::seq_lib::lemma_flatten_concat(a.push(x + y), c);
    a.lemma_flatten_push(x + y);
    assert(a.flatten() + x + y == a.flatten() + (x + y));
}

/// BPE only joins adjacent pieces: the pieces it returns spell the same
/// text as the pieces it was given.
pub proof fn lemma_bpe_keeps_text(merges: Seq<(Seq<char>, Seq<char>, nat)>, parts: Seq<Seq<char>>)
    ensures
        bpe_merge(merges, parts).flatten() == parts.flatten(),
    decreases parts.len(),
{
    if exists|i: int| is_best_pair(merges, parts, i) {
        let i = choose|i: int| is_best_pair(merges, parts, i);
        lemma_merge_at_len(parts, i);
        lemma_merge_at_keeps_text(parts, i);
        lemma_bpe_keeps_text(merges, merge_at(parts, i));
    }
}

proof fn lemma_singletons_flatten(w: Seq<char>)
    ensures
        singletons(w).flatten() == w,
    decreases w.len(),
{
    if w.len() > 0 {
        lemma_singletons_flatten(w.drop_first());
        assert(singletons(w).drop_first() == singletons(w.drop_first()));
        assert(singletons(w).first() == seq![w[0]]);
        assert(w == seq![w[0]] + w.drop_first());
    }
}

/// The tokens of all pieces spell the pieces' bytes, in order.
proof fn lemma_all_tokens_spell(
    merges: Seq<(Seq<char>, Seq<char>, nat)>,
    table: Seq<char>,
    pieces: Seq<Seq<u8>>,
)
    ensures
        all_tokens(merges, table, pieces).flatten() == spell(table, pieces.flatten()),
    decreases pieces.len(),
{
    let f = |q: Seq<u8>| piece_tokens(merges, table, q);
    if pieces.len() == 0 {
        assert(pieces.map_values(f) =~= Seq::empty());
        assert(all_tokens(merges, table, pieces) =~= Seq::empty());
        assert(spell(table, pieces.flatten()) =~= Seq::empty());
    } else {
        let p0 = pieces[0];
        let rest = pieces.drop_first();
        lemma_all_tokens_spell(merges, table, rest);
        assert(pieces.map_values(f) == seq![f(p0)] + rest.map_values(f));
        vstd::seq_lib::lemma_flatten_concat(seq![f(p0)], rest.map_values(f));
        seq![f(p0)].lemma_flatten_one_element();
        let r = rest.map_values(f).flatten();
        assert(all_tokens(merges, table, pieces) == f(p0) + r);
        vstd::seq_lib::lemma_flatten_concat(f(p0), r);
        lemma_bpe_keeps_text(merges, singletons(spell(table, p0)));
        lemma_singletons_flatten(spell(table, p0));
        assert(pieces.flatten() == p0 + rest.flatten());
        assert(spell(table, p0 + rest.flatten()) =~= spell(table, p0) + spell(table, rest.flatten()));
    }
}

/// The bytes of a text written as one piece are those of its parts.
proof fn lemma_token_bytes_concat(table: Seq<char>, a: Seq<char>, b: Seq<char>)
    ensures
        token_bytes(table, a + b) == match token_bytes(table, a) {
            Err(c) => Err(c),
            Ok(x) => match token_bytes(table, b) {
                Err(c) => Err(c),
                Ok(y) => Ok(x + y),
            },
        },
    decreases b.len(),
{
    if b.len() == 0 {
        assert(a + b == a);
        if let Ok(x) = token_bytes(table, a) {
            assert(x + Seq::<u8>::empty() == x);
        }
    } else {
        lemma_token_bytes_concat(table, a, b.drop_last());
        assert((a + b).drop_last() == a + b.drop_last());
        assert((a + b).last() == b.last());
        if let Ok(x) = token_bytes(table, a) {
            if let Ok(y) = token_bytes(table, b.drop_last()) {
                if let Some(bb) = char_byte(table, b.last()) {
                    assert(x + y.push(bb) == (x + y).push(bb));
                }
            }
        }
    }
}

/// Spelled bytes read back as the same bytes.
proof fn lemma_token_bytes_of_spell(table: Seq<char>, bytes: Seq<u8>)
    requires
        table.len() == 256,
        forall|x: int| 0 <= x < 256 ==> #[trigger] table[x] as int == byte_char_code(x),
    ensures
        token_bytes(table, spell(table, bytes)) == Ok::<_, char>(bytes),
    decreases bytes.len(),
{
    if bytes.len() > 0 {
        lemma_token_bytes_of_spell(table, bytes.drop_last());
        assert(spell(table, bytes).drop_last() == spell(table, bytes.drop_last()));
        let lb = bytes.last();
        lemma_char_byte_inverts_table(table, lb as int);
        assert(spell(table, bytes).last() == table[lb as int]);
        assert((lb as int) as u8 == lb);
        assert(char_byte(table, table[lb as int]) == Some(lb));
        assert(bytes.drop_last().push(lb) == bytes);
    } else {
        assert(spell(table, bytes) =~= Seq::empty());
        assert(bytes =~= Seq::<u8>::empty());
    }
}

/// Looked-up ids come one per token, each the token's id.
proof fn lemma_lookup_ids_each(vocab: Seq<(Seq<char>, u32)>, tokens: Seq<Seq<char>>, ids: Seq<u32>)
    requires
        lookup_ids(vocab, tokens) == Ok::<_, Seq<char>>(ids),
    ensures
        ids.len() == tokens.len(),
        forall|k: int| 0 <= k < ids.len() ==> vocab_id(vocab, tokens[k]) == Some(#[trigger] ids[k]),
    decreases tokens.len(),
{
    if tokens.len() > 0 {
        let prev = lookup_ids(vocab, tokens.drop_last())->Ok_0;
        lemma_lookup_ids_each(vocab, tokens.drop_last(), prev);
        assert(ids == prev.push(vocab_id(vocab, tokens.last())->0));
        assert forall|k: int| 0 <= k < ids.len() implies vocab_id(vocab, tokens[k]) == Some(
            #[trigger] ids[k],
        ) by {
            if k < ids.len() - 1 {
                assert(tokens.drop_last()[k] == tokens[k]);
                assert(prev[k] == ids[k]);
            }
        }
    }
}

/// No two vocabulary entries share an id.
pub open spec fn ids_unique(vocab: Seq<(Seq<char>, u32)>) -> bool {
    forall|i: int, j: int|
        0 <= i < vocab.len() && 0 <= j < vocab.len() && #[trigger] vocab[i].1 == #[trigger] vocab[j].1
            ==> i == j
}

/// With unique ids, the token an id decodes to is the one it was looked up
/// for.
proof fn lemma_token_of_id(vocab: Seq<(Seq<char>, u32)>, token: Seq<char>, id: u32)
    requires
        ids_unique(vocab),
        vocab_id(vocab, token) == Some(id),
    ensures
        vocab_token(vocab, id) == Some(token),
{
    let i = choose|i: int| is_first_token_entry(vocab, token, i);
    assert(vocab[i].1 == id);
    assert(is_last_id_entry(vocab, id, i));
    let k = choose|k: int| is_last_id_entry(vocab, id, k);
    assert(vocab[k].1 == vocab[i].1);
}

/// Decoding the ids of tokens gives the bytes those tokens spell.
proof fn lemma_decode_tokens(
    vocab: Seq<(Seq<char>, u32)>,
    table: Seq<char>,
    tokens: Seq<Seq<char>>,
    ids: Seq<u32>,
    n: int,
)
    requires
        ids_unique(vocab),
        lookup_ids(vocab, tokens) == Ok::<_, Seq<char>>(ids),
        token_bytes(table, tokens.flatten()) is Ok,
        0 <= n <= tokens.len(),
    ensures
        decode_bytes(vocab, table, ids.take(n)) == match token_bytes(table, tokens.take(n).flatten()) {
            Ok(bs) => Ok::<_, TokenizerFault>(bs),
            Err(c) => Err(TokenizerFault::CharNotInByteTable(c)),
        },
        token_bytes(table, tokens.take(n).flatten()) is Ok,
    decreases n,
{
    lemma_lookup_ids_each(vocab, tokens, ids);
    vstd::seq_lib::lemma_flatten_concat(tokens.take(n), tokens.skip(n));
    assert(tokens == tokens.take(n) + tokens.skip(n));
    lemma_token_bytes_concat(table, tokens.take(n).flatten(), tokens.skip(n).flatten());
    if n == 0 {
        assert(ids.take(0) =~= Seq::<u32>::empty());
        assert(tokens.take(0) =~= Seq::<Seq<char>>::empty());
        assert(tokens.take(0).flatten() =~= Seq::<char>::empty());
    } else {
        lemma_decode_tokens(vocab, table, tokens, ids, n - 1);
        let tk = tokens[n - 1];
        assert(tokens.take(n) == tokens.take(n - 1).push(tk));
        tokens.take(n - 1).lemma_flatten_push(tk);
        lemma_token_bytes_concat(table, tokens.take(n - 1).flatten(), tk);
        assert(ids.take(n).drop_last() == ids.take(n - 1));
        assert(ids.take(n).last() == ids[n - 1]);
        assert(vocab_id(vocab, tk) == Some(ids[n - 1]));
        lemma_token_of_id(vocab, tk, ids[n - 1]);
    }
}

/// Decoding undoes encoding on every split: when no two entries share an id
/// and every token of the pieces is in the vocabulary, decoding the ids
/// yields exactly the pieces' bytes, one after another.
pub proof fn lemma_decode_undoes_encode_split(
    t: &Tokenizer,
    split: (Seq<Seq<u8>>, Option<Seq<char>>),
    ids: Seq<u32>,
)
    requires
        t.wf(),
        ids_unique(t.vocab()),
        encode_result(t.vocab(), t.ranked_merges(), t.byte_table(), split) == Ok::<
            _,
            TokenizerFault,
        >(ids),
    ensures
        decode_bytes(t.vocab(), t.byte_table(), ids) == Ok::<_, TokenizerFault>(split.0.flatten()),
{
    let v = t.vocab();
    let m = t.ranked_merges();
    let tb = t.byte_table();
    let pieces = split.0;
    let tokens = all_tokens(m, tb, pieces);
    t.lemma_byte_table();
    lemma_all_tokens_spell(m, tb, pieces);
    lemma_token_bytes_of_spell(tb, pieces.flatten());
    lemma_lookup_ids_each(v, tokens, ids);
    lemma_decode_tokens(v, tb, tokens, ids, tokens.len() as int);
    assert(ids.take(ids.len() as int) == ids);
    assert(tokens.take(tokens.len() as int) == tokens);
}

/// Round trip: when the pre-split pieces cover the text, every token is in
/// the vocabulary and no two entries share an id, decoding the ids that
/// encoding gives yields exactly the UTF-8 bytes of the text (which
/// [`Tokenizer::decode`] then reads back as the text itself).
pub proof fn lemma_encode_decode_round_trip(t: &Tokenizer, text: Seq<char>, ids: Seq<u32>)
    requires
        t.wf(),
        ids_unique(t.vocab()),
        pretokenize(PATTERN@, text).0.flatten() == vstd::utf8::encode_utf8(text),
        encode_result(t.vocab(), t.ranked_merges(), t.byte_table(), pretokenize(PATTERN@, text)) == Ok::<
            _,
            TokenizerFault,
        >(ids),
    ensures
        decode_bytes(t.vocab(), t.byte_table(), ids) == Ok::<_, TokenizerFault>(
            vstd::utf8::encode_utf8(text),
        ),
        vstd::utf8::valid_utf8(vstd::utf8::encode_utf8(text)),
        vstd::utf8::decode_utf8(vstd::utf8::encode_utf8(text)) == text,
{
    lemma_decode_undoes_encode_split(t, pretokenize(PATTERN@, text), ids);
    vstd::utf8::encode_utf8_valid_utf8(text);
    vstd::utf8::encode_utf8_decode_utf8(text);
}

/// The id -> token side inverts the token -> id side: every id that some
/// entry has decodes to a token (and no other id does), and when no two
/// entries share an id, an entry's id decodes to that entry's token.
pub proof fn lemma_decoder_inverts_encoder(t: &Tokenizer, i: int)
    requires
        t.wf(),
        0 <= i < t.vocab().len(),
    ensures
        forall|id: u32|
            (#[trigger] vocab_token(t.vocab(), id)) is Some <==> exists|j: int|
                0 <= j < t.vocab().len() && t.vocab()[j].1 == id,
        ids_unique(t.vocab()) ==> vocab_token(t.vocab(), t.vocab()[i].1) == Some(t.vocab()[i].0),
{
    let v = t.vocab();
    assert forall|id: u32|
        (#[trigger] vocab_token(v, id)) is Some <==> exists|j: int| 0 <= j < v.len() && v[j].1 == id by {
        if exists|j: int| 0 <= j < v.len() && v[j].1 == id {
            let j = choose|j: int| 0 <= j < v.len() && v[j].1 == id;
            lemma_last_id_entry_exists(v, id, j);
        }
    }
    if ids_unique(v) {
        let id = v[i].1;
        lemma_last_id_entry_exists(v, id, i);
        let k = choose|k: int| is_last_id_entry(v, id, k);
        assert(v[k].1 == v[i].1);
    }
}

/// Some entry with id `id` has no later entry with that id.
proof fn lemma_last_id_entry_exists(v: Seq<(Seq<char>, u32)>, id: u32, j: int)
    requires
        0 <= j < v.len(),
        v[j].1 == id,
    ensures
        exists|k: int| is_last_id_entry(v, id, k),
    decreases v.len() - j,
{
    if exists|k: int| j < k < v.len() && v[k].1 == id {
        let k = choose|k: int| j < k < v.len() && v[k].1 == id;
        lemma_last_id_entry_exists(v, id, k);
    } else {
        assert(is_last_id_entry(v, id, j));
    }
}

/// The pieces of `split` spell all of `text`: no failure cut the split
/// short, and the pieces' bytes, one after another, are the text's UTF-8
/// bytes.
pub open spec fn spells_text(text: Seq<char>, split: (Seq<Seq<u8>>, Option<Seq<char>>)) -> bool {
    &&& split.1 is None
    &&& split.0.flatten() == vstd::utf8::encode_utf8(text)
}

/// The pattern's pieces of `text` spell all of it.
pub open spec fn split_covers(text: Seq<char>) -> bool {
    spells_text(text, pretokenize(PATTERN@, text))
}

/// Whether the pattern's pieces of `text` spell all of it.
pub fn split_covers_text(text: &str) -> (b: bool)
    ensures
        b == split_covers(text@),
{
    let split = split_words(PATTERN, text);
    split_spells_text(text, &split)
}

/// Whether the pieces of `split` spell all of `text`.
pub fn split_spells_text(text: &str, split: &(Vec<Vec<u8>>, Option<String>)) -> (b: bool)
    ensures
        b == spells_text(text@, split_view(split)),
{
    if split.1.is_some() {
        return false;
    }
    let pieces = &split.0;
    let ghost pv = pieces@.map_values(|q: Vec<u8>| q@);
    let mut joined: Vec<u8> = Vec::new();
    let mut i: usize = 0;
    proof {
        assert(pv.take(0) =~= Seq::<Seq<u8>>::empty());
        assert(pv.take(0).flatten() =~= Seq::<u8>::empty());
    }
    while i < pieces.len()
        invariant
            i <= pieces.len(),
            pv == pieces@.map_values(|q: Vec<u8>| q@),
            joined@ == pv.take(i as int).flatten(),
        decreases pieces.len() - i,
    {
        let piece = &pieces[i];
        let ghost before = joined@;
        let mut q: usize = 0;
        while q < piece.len()
            invariant
                q <= piece.len(),
                joined@ == before + piece@.take(q as int),
            decreases piece.len() - q,
        {
            joined.push(piece[q]);
            q = q + 1;
            proof {
                assert(joined@ =~= before + piece@.take(q as int));
            }
        }
        proof {
            assert(piece@.take(piece.len() as int) == piece@);
            assert(pv.take(i + 1) == pv.take(i as int).push(pv[i as int]));
            pv.take(i as int).lemma_flatten_push(pv[i as int]);
        }
        i = i + 1;
    }
    proof {
        assert(pv.take(pieces.len() as int) == pv);
    }
    let bytes = text.as_bytes();
    proof {
        assert(bytes@ == vstd::utf8::encode_utf8(text@));
        assert(joined@ == split_view(split).0.flatten());
    }
    if joined.len() != bytes.len() {
        proof {
            assert(joined@.len() != bytes@.len());
        }
        return false;
    }
    let mut k: usize = 0;
    while k < bytes.len()
        invariant
            k <= bytes.len(),
            joined.len() == bytes.len(),
            bytes@ == vstd::utf8::encode_utf8(text@),
            joined@ == split_view(split).0.flatten(),
            split_view(split).1 is None,
            forall|j: int| 0 <= j < k ==> joined@[j] == bytes@[j],
        decreases bytes.len() - k,
    {
        if joined[k] != bytes[k] {
            proof {
                assert(joined@[k as int] != bytes@[k as int]);
            }
            return false;
        }
        k = k + 1;
    }
    assert(joined@ =~= bytes@);
    true
}

impl Tokenizer {
    /// Whether no two vocabulary entries share an id.
    pub fn ids_are_unique(&self) -> (b: bool)
        ensures
            b == ids_unique(self.vocab()),
    {
        proof {
            use_type_invariant(self);
        }
        self.ids_distinct
    }

    /// Encodes `text` when decoding the ids is sure to give the text back:
    /// the vocabulary has no shared ids, the pattern's pieces spell all of
    /// the text, and every token is in the vocabulary. `None` otherwise.
    pub fn encode_reversible(&self, text: &str) -> (r: Option<Vec<u32>>)
        ensures
            match r {
                Some(ids) => {
                    &&& encode_result(
                        self.vocab(),
                        self.ranked_merges(),
                        self.byte_table(),
                        pretokenize(PATTERN@, text@),
                    ) == Ok::<_, TokenizerFault>(ids@)
                    &&& decode_bytes(self.vocab(), self.byte_table(), ids@) == Ok::<
                        _,
                        TokenizerFault,
                    >(vstd::utf8::encode_utf8(text@))
                    &&& vstd::utf8::decode_utf8(vstd::utf8::encode_utf8(text@)) == text@
                },
                None => !(ids_unique(self.vocab()) && split_covers(text@) && encode_result(
                    self.vocab(),
                    self.ranked_merges(),
                    self.byte_table(),
                    pretokenize(PATTERN@, text@),
                ) is Ok),
            },
    {
        proof {
            use_type_invariant(self);
        }
        if !self.ids_are_unique() {
            return None;
        }
        let split = split_words(PATTERN, text);
        if !split_spells_text(text, &split) {
            return None;
        }
        match self.encode_split(&split) {
            Ok(ids) => {
                proof {
                    lemma_encode_decode_round_trip(self, text@, ids@);
                }
                Some(ids)
            },
            Err(_) => None,
        }
    }
}

} // verus!
