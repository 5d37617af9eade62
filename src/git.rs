//! Repository status as reported to the user interface, and the parsing of
//! the version-control tool's plain-text output into it.
use vstd::prelude::*;

verus! {

/// High-level status of a repository.
pub struct GitInfo {
    pub branch: String,
    pub dirty: bool,
    pub ahead: u32,
    pub behind: u32,
    pub last_commit_hash: String,
    pub last_commit_message: String,
}

/// One changed file: a status code of at most two letters and its path.
pub struct ChangedFile {
    pub status: String,
    pub path: String,
}

/// The committed and the working-tree content of one file.
pub struct FileDiff {
    pub old_content: String,
    pub new_content: String,
}

/// Relies on `str::chars`: the characters of `s`, in order.
#[verifier::external_body]
fn chars_of(s: &str) -> (r: Vec<char>)
    ensures
        r@ == s@,
{
    s.chars().collect()
}

/// Relies on `String`'s `FromIterator<char>`: the string of these characters.
#[verifier::external_body]
fn string_of(v: &Vec<char>) -> (r: String)
    ensures
        r@ == v@,
{
    v.iter().collect()
}

/// Characters with the Unicode `White_Space` property.
pub open spec fn is_space(c: char) -> bool {
    ||| ('\u{9}' <= c <= '\u{d}')
    ||| c == ' '
    ||| c == '\u{85}'
    ||| c == '\u{a0}'
    ||| c == '\u{1680}'
    ||| ('\u{2000}' <= c <= '\u{200a}')
    ||| c == '\u{2028}'
    ||| c == '\u{2029}'
    ||| c == '\u{202f}'
    ||| c == '\u{205f}'
    ||| c == '\u{3000}'
}

fn is_space_char(c: char) -> (r: bool)
    ensures
        r == is_space(c),
{
    ('\u{9}' <= c && c <= '\u{d}') || c == ' ' || c == '\u{85}' || c == '\u{a0}' || c
        == '\u{1680}' || ('\u{2000}' <= c && c <= '\u{200a}') || c == '\u{2028}' || c
        == '\u{2029}' || c == '\u{202f}' || c == '\u{205f}' || c == '\u{3000}'
}

/// `s` without its leading white space.
pub open spec fn trim_start(s: Seq<char>) -> Seq<char>
    decreases s.len(),
{
    if s.len() > 0 && is_space(s[0]) {
        trim_start(s.drop_first())
    } else {
        s
    }
}

/// `s` without its trailing white space.
pub open spec fn trim_end(s: Seq<char>) -> Seq<char>
    decreases s.len(),
{
    if s.len() > 0 && is_space(s.last()) {
        trim_end(s.drop_last())
    } else {
        s
    }
}

/// `s` without white space at either end.
pub open spec fn trim(s: Seq<char>) -> Seq<char> {
    trim_end(trim_start(s))
}

fn trim_start_from(s: &Vec<char>, from: usize) -> (r: usize)
    requires
        from <= s.len(),
    ensures
        from <= r <= s.len(),
        s@.subrange(r as int, s@.len() as int) == trim_start(s@.subrange(from as int, s@.len() as int)),
{
    let mut i = from;
    while i < s.len() && is_space_char(s[i])
        invariant
            from <= i <= s.len(),
            trim_start(s@.subrange(from as int, s@.len() as int)) == trim_start(
                s@.subrange(i as int, s@.len() as int),
            ),
        decreases s.len() - i,
    {
        assert(s@.subrange(i as int, s@.len() as int).drop_first() == s@.subrange(
            i + 1,
            s@.len() as int,
        ));
        i += 1;
    }
    i
}

fn trim_end_to(s: &Vec<char>, from: usize, to: usize) -> (r: usize)
    requires
        from <= to <= s.len(),
    ensures
        from <= r <= to,
        s@.subrange(from as int, r as int) == trim_end(s@.subrange(from as int, to as int)),
{
    let mut j = to;
    while j > from && is_space_char(s[j - 1])
        invariant
            from <= j <= to <= s.len(),
            trim_end(s@.subrange(from as int, to as int)) == trim_end(
                s@.subrange(from as int, j as int),
            ),
        decreases j,
    {
        assert(s@.subrange(from as int, j as int).drop_last() == s@.subrange(
            from as int,
            j - 1,
        ));
        j -= 1;
    }
    j
}

/// The number of bytes that `c` takes in UTF-8.
pub open spec fn utf8_width(c: char) -> nat {
    if (c as u32) < 0x80 {
        1
    } else if (c as u32) < 0x800 {
        2
    } else if (c as u32) < 0x10000 {
        3
    } else {
        4
    }
}

/// How many characters the first two bytes of `line` hold, when byte 2 is
/// a character boundary within it.
pub open spec fn status_chars(line: Seq<char>) -> Option<nat> {
    if line.len() >= 1 && utf8_width(line[0]) == 2 {
        Some(1)
    } else if line.len() >= 2 && utf8_width(line[0]) == 1 && utf8_width(line[1]) == 1 {
        Some(2)
    } else {
        None
    }
}

/// `s` holds the separator ` -> ` at `j`.
pub open spec fn sep_at(s: Seq<char>, j: int) -> bool {
    0 <= j && j + 4 <= s.len() && s[j] == ' ' && s[j + 1] == '-' && s[j + 2] == '>' && s[j + 3]
        == ' '
}

/// Where the last part of `s` split at ` -> ` begins, scanning from `j` in
/// the part that begins at `start`; separators are matched left to right
/// without overlap.
pub open spec fn last_part_start(s: Seq<char>, start: int, j: int) -> int
    decreases s.len() - j,
{
    if j < 0 || j + 4 > s.len() {
        start
    } else if sep_at(s, j) {
        last_part_start(s, j + 4, j + 4)
    } else {
        last_part_start(s, start, j + 1)
    }
}

/// The status code of a porcelain line: its first two bytes trimmed
/// (`??` when they do not split cleanly), with untracked `??` shown as `A`.
pub open spec fn entry_status(line: Seq<char>) -> Seq<char> {
    let raw = match status_chars(line) {
        Some(k) => trim(line.subrange(0, k as int)),
        None => "??"@,
    };
    if raw == "??"@ {
        "A"@
    } else {
        raw
    }
}

/// The path of a porcelain line: what follows the status code, without
/// leading white space; for a rename `old -> new`, the new path.
pub open spec fn entry_path(line: Seq<char>) -> Seq<char> {
    let raw = match status_chars(line) {
        Some(k) => trim_start(line.subrange(k as int, line.len() as int)),
        None => seq![],
    };
    raw.subrange(last_part_start(raw, 0, 0), raw.len() as int)
}

/// Length of the first line of `s`, without its line feed.
pub open spec fn first_line_len(s: Seq<char>) -> nat
    decreases s.len(),
{
    if s.len() == 0 || s[0] == '\n' {
        0
    } else {
        1 + first_line_len(s.drop_first())
    }
}

/// The first line of `s`: a line ended by a line feed loses it and one
/// carriage return before it.
pub open spec fn first_line(s: Seq<char>) -> Seq<char> {
    let n = first_line_len(s) as int;
    if n < s.len() && n > 0 && s[n - 1] == '\r' {
        s.subrange(0, n - 1)
    } else {
        s.subrange(0, n)
    }
}

/// The (status, path) of each non-empty line of porcelain output.
pub open spec fn porcelain_entries(s: Seq<char>) -> Seq<(Seq<char>, Seq<char>)>
    decreases s.len(),
{
    if s.len() == 0 {
        seq![]
    } else {
        let n = first_line_len(s) as int;
        let line = first_line(s);
        let rest = if n < s.len() {
            s.subrange(n + 1, s.len() as int)
        } else {
            seq![]
        };
        let here = if line.len() == 0 {
            seq![]
        } else {
            seq![(entry_status(line), entry_path(line))]
        };
        here + porcelain_entries(rest)
    }
}

/// The (status, path) characters of each changed file.
pub open spec fn changed_view(v: Seq<ChangedFile>) -> Seq<(Seq<char>, Seq<char>)> {
    v.map_values(|f: ChangedFile| (f.status@, f.path@))
}

fn width_one(c: char) -> (r: bool)
    ensures
        r == (utf8_width(c) == 1),
{
    (c as u32) < 0x80
}

fn width_two(c: char) -> (r: bool)
    ensures
        r == (utf8_width(c) == 2),
{
    0x80 <= (c as u32) && (c as u32) < 0x800
}

fn copy_range(s: &Vec<char>, a: usize, b: usize) -> (r: Vec<char>)
    requires
        a <= b <= s.len(),
    ensures
        r@ == s@.subrange(a as int, b as int),
{
    let mut r: Vec<char> = Vec::new();
    let mut i: usize = a;
    while i < b
        invariant
            a <= i <= b <= s.len(),
            r@ == s@.subrange(a as int, i as int),
        decreases b - i,
    {
        r.push(s[i]);
        assert(s@.subrange(a as int, i + 1) == s@.subrange(a as int, i as int).push(s@[i as int]));
        i += 1;
    }
    r
}

fn status_chars_of(line: &Vec<char>) -> (r: Option<usize>)
    ensures
        match status_chars(line@) {
            Some(k) => r == Some(k as usize),
            None => r is None,
        },
        r matches Some(k) ==> k <= line.len(),
{
    if line.len() >= 1 && width_two(line[0]) {
        Some(1)
    } else if line.len() >= 2 && width_one(line[0]) && width_one(line[1]) {
        Some(2)
    } else {
        None
    }
}

fn last_part_start_of(s: &Vec<char>) -> (r: usize)
    ensures
        r == last_part_start(s@, 0, 0),
        r <= s.len(),
{
    let mut start: usize = 0;
    let mut j: usize = 0;
    while j < s.len() && s.len() - j >= 4
        invariant
            start <= j <= s.len(),
            last_part_start(s@, 0, 0) == last_part_start(s@, start as int, j as int),
        decreases s.len() - j,
    {
        if s[j] == ' ' && s[j + 1] == '-' && s[j + 2] == '>' && s[j + 3] == ' ' {
            j += 4;
            start = j;
        } else {
            j += 1;
        }
    }
    start
}

/// Parses one porcelain line into its status code and path.
pub fn parse_entry(line: &Vec<char>) -> (r: ChangedFile)
    ensures
        r.status@ == entry_status(line@),
        r.path@ == entry_path(line@),
{
    proof {
        reveal_strlit("??");
        reveal_strlit("A");
    }
    let (raw, raw_path) = match status_chars_of(line) {
        Some(k) => {
            let head = copy_range(line, 0, k);
            let b = trim_start_from(&head, 0);
            let e = trim_end_to(&head, b, head.len());
            assert(head@.subrange(0, head@.len() as int) == head@);
            let raw = copy_range(&head, b, e);
            let tail = copy_range(line, k, line.len());
            let c = trim_start_from(&tail, 0);
            assert(tail@.subrange(0, tail@.len() as int) == tail@);
            let raw_path = copy_range(&tail, c, tail.len());
            (raw, raw_path)
        },
        None => {
            let mut raw: Vec<char> = Vec::new();
            raw.push('?');
            raw.push('?');
            assert(raw@ == "??"@);
            (raw, Vec::new())
        },
    };
    let status = if raw.len() == 2 && raw[0] == '?' && raw[1] == '?' {
        assert(raw@ == "??"@);
        let mut a: Vec<char> = Vec::new();
        a.push('A');
        assert(a@ == "A"@);
        a
    } else {
        assert(raw@ != "??"@);
        raw
    };
    let start = last_part_start_of(&raw_path);
    let path = copy_range(&raw_path, start, raw_path.len());
    ChangedFile { status: string_of(&status), path: string_of(&path) }
}

/// Parses porcelain status output: one changed file for each non-empty
/// line, in order.
pub fn parse_changed_files(text: &str) -> (r: Vec<ChangedFile>)
    ensures
        changed_view(r@) == porcelain_entries(text@),
{
    let s = chars_of(text);
    let mut out: Vec<ChangedFile> = Vec::new();
    let mut i: usize = 0;
    assert(s@.subrange(0, s@.len() as int) == s@);
    assert(changed_view(out@) + porcelain_entries(s@) == porcelain_entries(s@));
    while i < s.len()
        invariant
            i <= s.len(),
            s@ == text@,
            porcelain_entries(s@) == changed_view(out@) + porcelain_entries(
                s@.subrange(i as int, s@.len() as int),
            ),
        decreases s.len() - i,
    {
        let ghost t = s@.subrange(i as int, s@.len() as int);
        let ghost out0 = out@;
        let mut j: usize = i;
        while j < s.len() && s[j] != '\n'
            invariant
                i <= j <= s.len(),
                first_line_len(t) == (j - i) + first_line_len(s@.subrange(j as int, s@.len() as int)),
                t == s@.subrange(i as int, s@.len() as int),
            decreases s.len() - j,
        {
            assert(s@.subrange(j as int, s@.len() as int).drop_first() == s@.subrange(
                j + 1,
                s@.len() as int,
            ));
            j += 1;
        }
        assert(first_line_len(t) == j - i);
        let end = if j < s.len() && j > i && s[j - 1] == '\r' {
            j - 1
        } else {
            j
        };
        assert(first_line(t) == s@.subrange(i as int, end as int));
        let ghost rest = if j < s.len() {
            t.subrange(j - i + 1, t.len() as int)
        } else {
            Seq::<char>::empty()
        };
        let next = if j < s.len() {
            j + 1
        } else {
            j
        };
        assert(rest == s@.subrange(next as int, s@.len() as int));
        if end > i {
            let line = copy_range(&s, i, end);
            let f = parse_entry(&line);
            out.push(f);
            assert(changed_view(out@) == changed_view(out0) + seq![(f.status@, f.path@)]);
        } else {
            assert(out@ == out0);
        }
        i = next;
    }
    assert(porcelain_entries(s@.subrange(i as int, s@.len() as int)) == Seq::<(Seq<char>, Seq<char>)>::empty());
    assert(changed_view(out@) + Seq::<(Seq<char>, Seq<char>)>::empty() == changed_view(out@));
    out
}

/// Length of the run of non-space characters that starts `s`.
pub open spec fn token_len(s: Seq<char>) -> nat
    decreases s.len(),
{
    if s.len() == 0 || is_space(s[0]) {
        0
    } else {
        1 + token_len(s.drop_first())
    }
}

proof fn lemma_token_len_bound(s: Seq<char>)
    ensures
        token_len(s) <= s.len(),
    decreases s.len(),
{
    if s.len() > 0 && !is_space(s[0]) {
        lemma_token_len_bound(s.drop_first());
    }
}

/// The white-space separated fields of `s`, in order.
pub open spec fn fields(s: Seq<char>) -> Seq<Seq<char>>
    decreases s.len(),
    via fields_decreases
{
    if s.len() == 0 {
        seq![]
    } else if is_space(s[0]) {
        fields(s.drop_first())
    } else {
        let n = token_len(s) as int;
        seq![s.subrange(0, n)] + fields(s.subrange(n, s.len() as int))
    }
}

#[via_fn]
proof fn fields_decreases(s: Seq<char>) {
    lemma_token_len_bound(s);
}

/// The number that decimal digits `d` write.
pub open spec fn digits_value(d: Seq<char>) -> nat
    decreases d.len(),
{
    if d.len() == 0 {
        0
    } else {
        digits_value(d.drop_last()) * 10 + (d.last() as int - '0' as int) as nat
    }
}

/// `d` is one or more decimal digits.
pub open spec fn is_digits(d: Seq<char>) -> bool {
    d.len() > 0 && forall|i: int| 0 <= i < d.len() ==> '0' <= #[trigger] d[i] <= '9'
}

/// `s` without one leading plus sign.
pub open spec fn unsigned_part(s: Seq<char>) -> Seq<char> {
    if s.len() > 0 && s[0] == '+' {
        s.drop_first()
    } else {
        s
    }
}

/// A `u32` written in decimal, with an optional leading plus sign, when it
/// is one and fits.
pub open spec fn parse_u32(s: Seq<char>) -> Option<u32> {
    let d = unsigned_part(s);
    if is_digits(d) && digits_value(d) <= u32::MAX {
        Some(digits_value(d) as u32)
    } else {
        None
    }
}

/// A count, 0 where it does not parse.
pub open spec fn count_or_zero(s: Seq<char>) -> u32 {
    match parse_u32(s) {
        Some(v) => v,
        None => 0,
    }
}

/// The (ahead, behind) pair that a left-right count output gives: its two
/// fields as numbers, or (0, 0) when there are not exactly two.
pub open spec fn count_pair(s: Seq<char>) -> (u32, u32) {
    let f = fields(s);
    if f.len() == 2 {
        (count_or_zero(f[0]), count_or_zero(f[1]))
    } else {
        (0, 0)
    }
}

proof fn lemma_digits_prefix(d: Seq<char>, k: int)
    requires
        0 <= k <= d.len(),
        forall|i: int| 0 <= i < d.len() ==> '0' <= #[trigger] d[i] <= '9',
    ensures
        digits_value(d.subrange(0, k)) <= digits_value(d),
    decreases d.len(),
{
    if k < d.len() {
        let p = d.drop_last();
        assert(forall|i: int| 0 <= i < p.len() ==> p[i] == d[i]);
        lemma_digits_prefix(p, k);
        assert(p.subrange(0, k) == d.subrange(0, k));
    } else {
        assert(d.subrange(0, k) == d);
    }
}

fn parse_u32_of(s: &Vec<char>) -> (r: Option<u32>)
    ensures
        r == parse_u32(s@),
{
    let start: usize = if s.len() > 0 && s[0] == '+' {
        1
    } else {
        0
    };
    let ghost d = unsigned_part(s@);
    assert(d == s@.subrange(start as int, s@.len() as int));
    if start == s.len() {
        return None;
    }
    let mut acc: u64 = 0;
    let mut i: usize = start;
    assert(s@.subrange(start as int, start as int) == Seq::<char>::empty());
    while i < s.len()
        invariant
            start <= i <= s.len(),
            d == unsigned_part(s@),
            d == s@.subrange(start as int, s@.len() as int),
            acc == digits_value(s@.subrange(start as int, i as int)),
            acc <= u32::MAX,
            forall|k: int| start <= k < i ==> '0' <= #[trigger] s@[k] <= '9',
        decreases s.len() - i,
    {
        let c = s[i];
        if !('0' <= c && c <= '9') {
            assert(d[i - start] == c);
            assert(!is_digits(d));
            return None;
        }
        let ghost p = s@.subrange(start as int, i + 1);
        assert(p.drop_last() == s@.subrange(start as int, i as int));
        assert(p.last() == c);
        acc = acc * 10 + (c as u64 - 48);
        assert(acc == digits_value(p));
        if acc > 0xffff_ffff {
            proof {
                if is_digits(d) {
                    lemma_digits_prefix(d, i + 1 - start);
                    assert(d.subrange(0, i + 1 - start) == p);
                }
            }
            return None;
        }
        i += 1;
    }
    assert(s@.subrange(start as int, s@.len() as int) == d);
    Some(acc as u32)
}

/// The characters of each field.
pub open spec fn fields_view(v: Seq<Vec<char>>) -> Seq<Seq<char>> {
    v.map_values(|f: Vec<char>| f@)
}

fn fields_of(s: &Vec<char>) -> (r: Vec<Vec<char>>)
    ensures
        fields_view(r@) == fields(s@),
{
    let mut out: Vec<Vec<char>> = Vec::new();
    let mut i: usize = 0;
    assert(s@.subrange(0, s@.len() as int) == s@);
    assert(fields_view(out@) + fields(s@) == fields(s@));
    while i < s.len()
        invariant
            i <= s.len(),
            fields(s@) == fields_view(out@) + fields(s@.subrange(i as int, s@.len() as int)),
        decreases s.len() - i,
    {
        let ghost t = s@.subrange(i as int, s@.len() as int);
        let ghost out0 = out@;
        if is_space_char(s[i]) {
            assert(t.drop_first() == s@.subrange(i + 1, s@.len() as int));
            i += 1;
        } else {
            let mut j: usize = i;
            while j < s.len() && !is_space_char(s[j])
                invariant
                    i <= j <= s.len(),
                    t == s@.subrange(i as int, s@.len() as int),
                    token_len(t) == (j - i) + token_len(s@.subrange(j as int, s@.len() as int)),
                decreases s.len() - j,
            {
                assert(s@.subrange(j as int, s@.len() as int).drop_first() == s@.subrange(
                    j + 1,
                    s@.len() as int,
                ));
                j += 1;
            }
            let token = copy_range(s, i, j);
            assert(t.subrange(0, j - i) == token@);
            assert(t.subrange(j - i, t.len() as int) == s@.subrange(j as int, s@.len() as int));
            out.push(token);
            assert(fields_view(out@) == fields_view(out0) + seq![token@]);
            i = j;
        }
    }
    assert(s@.subrange(i as int, s@.len() as int) == Seq::<char>::empty());
    assert(fields_view(out@) + Seq::<Seq<char>>::empty() == fields_view(out@));
    out
}

/// The (ahead, behind) counts from left-right count output.
pub fn parse_ahead_behind(text: &str) -> (r: (u32, u32))
    ensures
        r == count_pair(text@),
{
    let s = chars_of(text);
    let f = fields_of(&s);
    if f.len() == 2 {
        assert(fields_view(f@)[0] == f@[0]@);
        assert(fields_view(f@)[1] == f@[1]@);
        let a = match parse_u32_of(&f[0]) {
            Some(v) => v,
            None => 0,
        };
        let b = match parse_u32_of(&f[1]) {
            Some(v) => v,
            None => 0,
        };
        (a, b)
    } else {
        (0, 0)
    }
}

/// Assembles the repository status from the tool's outputs: the branch,
/// the porcelain status (dirty when it is not empty), the left-right count
/// output if that query succeeded, and the last commit's hash and subject.
pub fn git_info_from(
    branch: String,
    porcelain: &str,
    counts: Option<&str>,
    last_commit_hash: String,
    last_commit_message: String,
) -> (r: GitInfo)
    ensures
        r.branch@ == branch@,
        r.dirty == (porcelain@.len() > 0),
        (r.ahead, r.behind) == (match counts {
            Some(c) => count_pair(c@),
            None => (0u32, 0u32),
        }),
        r.last_commit_hash@ == last_commit_hash@,
        r.last_commit_message@ == last_commit_message@,
{
    let (ahead, behind) = match counts {
        Some(c) => parse_ahead_behind(c),
        None => (0, 0),
    };
    GitInfo {
        branch,
        dirty: !porcelain.is_empty(),
        ahead,
        behind,
        last_commit_hash,
        last_commit_message,
    }
}

} // verus!
