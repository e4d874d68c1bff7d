//! One line of a process's memory-map listing: six fields set apart by single
//! spaces, the last of which, padded on the left, names the file behind the
//! region, if there is one.

use vstd::prelude::*;
use crate::text::chars_of;

verus! {

/// What a line of the listing says about the region it describes.
#[derive(Debug, PartialEq, Eq)]
pub enum MapsLine {
    /// The line ends before its permissions or, for an executable region,
    /// before its path field.
    Malformed,
    /// The region cannot be executed.
    NotExecutable,
    /// The region can be executed, but what stands for its path is not
    /// absolute: nothing, or a name in brackets.
    NoFile,
    /// The region can be executed and maps the file at this absolute path.
    Executable(String),
}

/// A `MapsLine` with its path as a sequence of characters.
pub enum LineKind {
    Malformed,
    NotExecutable,
    NoFile,
    Executable(Seq<char>),
}

impl View for MapsLine {
    type V = LineKind;

    open spec fn view(&self) -> LineKind {
        match self {
            MapsLine::Malformed => LineKind::Malformed,
            MapsLine::NotExecutable => LineKind::NotExecutable,
            MapsLine::NoFile => LineKind::NoFile,
            MapsLine::Executable(path) => LineKind::Executable(path@),
        }
    }
}

/// The characters that pad a path field on the left: those that Unicode
/// classes as White_Space.
pub open spec fn is_padding(c: char) -> bool {
    let u = c as u32;
    ||| 0x09 <= u <= 0x0d
    ||| u == 0x20
    ||| u == 0x85
    ||| u == 0xa0
    ||| u == 0x1680
    ||| 0x2000 <= u <= 0x200a
    ||| u == 0x2028
    ||| u == 0x2029
    ||| u == 0x202f
    ||| u == 0x205f
    ||| u == 0x3000
}

/// Where the field that starts at `from` ends: at the next space, or at the
/// end of the line.
pub open spec fn field_end(s: Seq<char>, from: int) -> int
    decreases s.len() - from,
{
    if from >= s.len() {
        s.len() as int
    } else if s[from] == ' ' {
        from
    } else {
        field_end(s, from + 1)
    }
}

/// Where field number `n`, counted from zero, starts, if the line has that
/// many: each field but the first starts right after the space that ends the
/// one before it.
pub open spec fn field_start(s: Seq<char>, n: nat) -> Option<int>
    decreases n,
{
    if n == 0 {
        Some(0)
    } else {
        match field_start(s, (n - 1) as nat) {
            Some(b) => {
                let e = field_end(s, b);
                if e < s.len() {
                    Some(e + 1)
                } else {
                    None
                }
            },
            None => None,
        }
    }
}

/// Where the padding that starts at `from` ends.
pub open spec fn padding_end(s: Seq<char>, from: int) -> int
    decreases s.len() - from,
{
    if from >= s.len() {
        s.len() as int
    } else if is_padding(s[from]) {
        padding_end(s, from + 1)
    } else {
        from
    }
}

/// What a line says. The permissions are field 1, and the region can be
/// executed if an `x` stands anywhere in them. The path is what follows the
/// fifth space, without the padding in front of it.
pub open spec fn spec_classify(s: Seq<char>) -> LineKind {
    match field_start(s, 1) {
        None => LineKind::Malformed,
        Some(p) => {
            if !s.subrange(p, field_end(s, p)).contains('x') {
                LineKind::NotExecutable
            } else {
                match field_start(s, 5) {
                    None => LineKind::Malformed,
                    Some(r) => {
                        let at = padding_end(s, r);
                        if at < s.len() && s[at] == '/' {
                            LineKind::Executable(s.subrange(at, s.len() as int))
                        } else {
                            LineKind::NoFile
                        }
                    },
                }
            }
        },
    }
}

/// Whether `c` pads a path field.
pub fn pads(c: char) -> (r: bool)
    ensures
        r == is_padding(c),
{
    let u: u32 = c as u32;
    (0x09 <= u && u <= 0x0d) || u == 0x20 || u == 0x85 || u == 0xa0 || u == 0x1680 || (0x2000 <= u
        && u <= 0x200a) || u == 0x2028 || u == 0x2029 || u == 0x202f || u == 0x205f || u == 0x3000
}

fn find_field_end(s: &Vec<char>, from: usize) -> (e: usize)
    requires
        from <= s.len(),
    ensures
        e == field_end(s@, from as int),
        from <= e <= s.len(),
        forall|k: int| from <= k < e ==> s[k] != ' ',
{
    let mut i: usize = from;
    while i < s.len() && s[i] != ' '
        invariant
            from <= i <= s.len(),
            field_end(s@, from as int) == field_end(s@, i as int),
            forall|k: int| from <= k < i ==> s[k] != ' ',
        decreases s.len() - i,
    {
        i += 1;
    }
    i
}

fn find_field_start(s: &Vec<char>, n: usize) -> (b: Option<usize>)
    ensures
        match b {
            Some(i) => field_start(s@, n as nat) == Some(i as int) && i <= s.len(),
            None => field_start(s@, n as nat) is None,
        },
{
    let mut at: usize = 0;
    let mut k: usize = 0;
    while k < n
        invariant
            k <= n,
            at <= s.len(),
            field_start(s@, k as nat) == Some(at as int),
        decreases n - k,
    {
        let e = find_field_end(s, at);
        if e >= s.len() {
            proof {
                lemma_no_later_field(s@, (k + 1) as nat, n as nat);
            }
            return None;
        }
        at = e + 1;
        k += 1;
    }
    Some(at)
}

proof fn lemma_no_later_field(s: Seq<char>, k: nat, n: nat)
    requires
        k <= n,
        field_start(s, k) is None,
    ensures
        field_start(s, n) is None,
    decreases n,
{
    if k < n {
        lemma_no_later_field(s, k, (n - 1) as nat);
    }
}

fn find_padding_end(s: &Vec<char>, from: usize) -> (e: usize)
    requires
        from <= s.len(),
    ensures
        e == padding_end(s@, from as int),
        from <= e <= s.len(),
{
    let mut i: usize = from;
    while i < s.len() && pads(s[i])
        invariant
            from <= i <= s.len(),
            padding_end(s@, from as int) == padding_end(s@, i as int),
        decreases s.len() - i,
    {
        i += 1;
    }
    i
}

fn has_execute(s: &Vec<char>, from: usize, to: usize) -> (r: bool)
    requires
        from <= to <= s.len(),
    ensures
        r == s@.subrange(from as int, to as int).contains('x'),
{
    let ghost field = s@.subrange(from as int, to as int);
    let mut i: usize = from;
    while i < to
        invariant
            from <= i <= to <= s.len(),
            field == s@.subrange(from as int, to as int),
            forall|k: int| 0 <= k < i - from ==> field[k] != 'x',
        decreases to - i,
    {
        if s[i] == 'x' {
            assert(field[i - from] == 'x');
            return true;
        }
        i += 1;
    }
    false
}

/// Reads one line of a memory-map listing.
pub fn classify(line: &str) -> (kind: MapsLine)
    ensures
        kind@ == spec_classify(line@),
{
    let s = chars_of(line);
    let perms = match find_field_start(&s, 1) {
        Some(p) => p,
        None => {
            return MapsLine::Malformed;
        },
    };
    let perms_end = find_field_end(&s, perms);
    if !has_execute(&s, perms, perms_end) {
        return MapsLine::NotExecutable;
    }
    let rest = match find_field_start(&s, 5) {
        Some(r) => r,
        None => {
            return MapsLine::Malformed;
        },
    };
    let at = find_padding_end(&s, rest);
    if at < s.len() && s[at] == '/' {
        MapsLine::Executable(line.substring_char(at, s.len()).to_owned())
    } else {
        MapsLine::NoFile
    }
}

/// Whether a field holds no space.
pub open spec fn no_space(field: Seq<char>) -> bool {
    forall|i: int| 0 <= i < field.len() ==> #[trigger] field[i] != ' '
}

/// Whether every character pads.
pub open spec fn all_padding(pad: Seq<char>) -> bool {
    forall|i: int| 0 <= i < pad.len() ==> is_padding(#[trigger] pad[i])
}

/// The line made of `fields`, one space between each two.
pub open spec fn joined(fields: Seq<Seq<char>>) -> Seq<char>
    decreases fields.len(),
{
    if fields.len() == 0 {
        Seq::empty()
    } else if fields.len() == 1 {
        fields[0]
    } else {
        joined(fields.drop_last()) + seq![' '] + fields.last()
    }
}

spec fn offset(fields: Seq<Seq<char>>, k: int) -> int
    decreases k,
{
    if k <= 0 {
        0
    } else {
        offset(fields, k - 1) + fields[k - 1].len() + 1
    }
}

proof fn lemma_offset_front(fields: Seq<Seq<char>>, k: int)
    requires
        0 <= k < fields.len(),
    ensures
        offset(fields.drop_last(), k) == offset(fields, k),
    decreases k,
{
    if k > 0 {
        lemma_offset_front(fields, k - 1);
    }
}

proof fn lemma_layout(fields: Seq<Seq<char>>)
    requires
        fields.len() >= 1,
    ensures
        joined(fields).len() == offset(fields, fields.len() - 1) + fields.last().len(),
        forall|k: int|
            0 <= k < fields.len() ==> 0 <= #[trigger] offset(fields, k) && offset(fields, k)
                + fields[k].len() <= joined(fields).len() && joined(fields).subrange(
                offset(fields, k),
                offset(fields, k) + fields[k].len(),
            ) == fields[k],
        forall|k: int|
            0 <= k < fields.len() - 1 ==> joined(fields)[#[trigger] offset(fields, k)
                + fields[k].len()] == ' ',
    decreases fields.len(),
{
    let line = joined(fields);
    let n = fields.len() as int;
    if n == 1 {
        assert(line.subrange(0, fields[0].len() as int) =~= fields[0]);
    } else {
        let front = fields.drop_last();
        let head = joined(front);
        lemma_layout(front);
        lemma_offset_front(fields, n - 2);
        assert(offset(fields, n - 1) == head.len() + 1);
        assert forall|k: int| 0 <= k < n implies 0 <= #[trigger] offset(fields, k) && offset(
            fields,
            k,
        ) + fields[k].len() <= line.len() && line.subrange(
            offset(fields, k),
            offset(fields, k) + fields[k].len(),
        ) == fields[k] by {
            if k < n - 1 {
                lemma_offset_front(fields, k);
                assert(front[k] == fields[k]);
                assert(0 <= offset(front, k));
                assert(line.subrange(offset(fields, k), offset(fields, k) + fields[k].len())
                    =~= head.subrange(offset(front, k), offset(front, k) + front[k].len()));
            } else {
                assert(line.subrange(offset(fields, k), offset(fields, k) + fields[k].len())
                    =~= fields[k]);
            }
        }
        assert forall|k: int| 0 <= k < n - 1 implies line[#[trigger] offset(fields, k)
            + fields[k].len()] == ' ' by {
            lemma_offset_front(fields, k);
            assert(front[k] == fields[k]);
            if k < n - 2 {
                assert(0 <= offset(front, k));
                assert(head[offset(front, k) + front[k].len()] == ' ');
            }
        }
    }
}

proof fn lemma_field_end_at(s: Seq<char>, from: int, e: int)
    requires
        0 <= from <= e <= s.len(),
        forall|k: int| from <= k < e ==> s[k] != ' ',
        e == s.len() || s[e] == ' ',
    ensures
        field_end(s, from) == e,
    decreases e - from,
{
    if from < e {
        lemma_field_end_at(s, from + 1, e);
    }
}

proof fn lemma_padding_end_at(s: Seq<char>, from: int, e: int)
    requires
        0 <= from <= e <= s.len(),
        forall|k: int| from <= k < e ==> is_padding(s[k]),
        e == s.len() || !is_padding(s[e]),
    ensures
        padding_end(s, from) == e,
    decreases e - from,
{
    if from < e {
        lemma_padding_end_at(s, from + 1, e);
    }
}

proof fn lemma_field_of(fields: Seq<Seq<char>>, tail: Seq<char>, k: int)
    requires
        0 <= k < fields.len(),
        forall|i: int| 0 <= i < fields.len() ==> no_space(#[trigger] fields[i]),
        tail.len() == 0 || tail[0] == ' ',
    ensures
        field_start(joined(fields) + tail, k as nat) == Some(offset(fields, k)),
        field_end(joined(fields) + tail, offset(fields, k)) == offset(fields, k) + fields[k].len(),
        (joined(fields) + tail).subrange(offset(fields, k), offset(fields, k) + fields[k].len())
            == fields[k],
    decreases k,
{
    let line = joined(fields) + tail;
    let head = joined(fields);
    lemma_layout(fields);
    let b = offset(fields, k);
    let e = b + fields[k].len();
    assert(0 <= b);
    assert(head.subrange(b, e) == fields[k]);
    assert(line.subrange(b, e) =~= head.subrange(b, e));
    assert forall|i: int| b <= i < e implies line[i] != ' ' by {
        assert(no_space(fields[k]));
        assert(line[i] == head.subrange(b, e)[i - b]);
        assert(fields[k][i - b] != ' ');
    }
    if k < fields.len() - 1 {
        assert(head[b + fields[k].len()] == ' ');
        assert(line[e] == ' ');
    } else {
        assert(e == head.len());
        if tail.len() > 0 {
            assert(line[e] == tail[0]);
        }
    }
    lemma_field_end_at(line, b, e);
    if k > 0 {
        lemma_field_of(fields, tail, k - 1);
        let pb = offset(fields, k - 1);
        assert(0 <= pb);
        assert(pb + fields[k - 1].len() < head.len());
    }
}

/// A line that stops after at most five fields names no file: with one
/// field it lacks its permissions; with more, it is either not executable or
/// lacks its path.
pub proof fn lemma_short_line(fields: Seq<Seq<char>>)
    requires
        1 <= fields.len() <= 5,
        forall|i: int| 0 <= i < fields.len() ==> no_space(#[trigger] fields[i]),
    ensures
        spec_classify(joined(fields)) == if fields.len() == 1 {
            LineKind::Malformed
        } else if !fields[1].contains('x') {
            LineKind::NotExecutable
        } else {
            LineKind::Malformed
        },
{
    let line = joined(fields);
    let n = fields.len() as int;
    assert(line + Seq::<char>::empty() =~= line);
    lemma_field_of(fields, Seq::empty(), n - 1);
    lemma_layout(fields);
    assert(field_start(line, n as nat) is None);
    if n > 1 {
        lemma_field_of(fields, Seq::empty(), 1);
        lemma_no_later_field(line, n as nat, 5);
    }
}

/// A line of five fields and a rest, which is padding followed by what
/// stands for the path: if the permissions hold no `x`, the region is not
/// executable; else the line names the path if that starts with a slash, and
/// no file if it is empty or starts otherwise, as a name in brackets does.
pub proof fn lemma_full_line(fields: Seq<Seq<char>>, pad: Seq<char>, path: Seq<char>)
    requires
        fields.len() == 5,
        forall|i: int| 0 <= i < fields.len() ==> no_space(#[trigger] fields[i]),
        all_padding(pad),
        path.len() == 0 || !is_padding(path[0]),
    ensures
        spec_classify(joined(fields) + seq![' '] + pad + path) == if !fields[1].contains('x') {
            LineKind::NotExecutable
        } else if path.len() > 0 && path[0] == '/' {
            LineKind::Executable(path)
        } else {
            LineKind::NoFile
        },
{
    let tail = seq![' '] + pad + path;
    let line = joined(fields) + tail;
    assert(line =~= joined(fields) + seq![' '] + pad + path);
    lemma_field_of(fields, tail, 1);
    lemma_field_of(fields, tail, 4);
    lemma_layout(fields);
    let head = joined(fields);
    let r: int = head.len() as int + 1;
    assert(line[head.len() as int] == ' ');
    assert(field_start(line, 5) == Some(r));
    let at: int = r + pad.len();
    assert forall|k: int| r <= k < at implies is_padding(line[k]) by {
        assert(line[k] == pad[k - r]);
    }
    if path.len() > 0 {
        assert(line[at] == path[0]);
    }
    lemma_padding_end_at(line, r, at);
    assert(line.subrange(at, line.len() as int) =~= path);
}

proof fn lemma_field_end_bounds(s: Seq<char>, from: int)
    requires
        0 <= from <= s.len(),
    ensures
        from <= field_end(s, from) <= s.len(),
    decreases s.len() - from,
{
    if from < s.len() && s[from] != ' ' {
        lemma_field_end_bounds(s, from + 1);
    }
}

proof fn lemma_field_start_bounds(s: Seq<char>, n: nat)
    ensures
        field_start(s, n) matches Some(b) ==> 0 <= b <= s.len(),
    decreases n,
{
    if n > 0 {
        lemma_field_start_bounds(s, (n - 1) as nat);
        if let Some(b) = field_start(s, (n - 1) as nat) {
            lemma_field_end_bounds(s, b);
        }
    }
}

proof fn lemma_padding_end_bounds(s: Seq<char>, from: int)
    requires
        0 <= from <= s.len(),
    ensures
        from <= padding_end(s, from) <= s.len(),
    decreases s.len() - from,
{
    if from < s.len() && is_padding(s[from]) {
        lemma_padding_end_bounds(s, from + 1);
    }
}

/// A path that a line names is absolute, and is what the line ends with.
pub proof fn lemma_named_path(line: Seq<char>)
    ensures
        spec_classify(line) matches LineKind::Executable(path) ==> path.len() > 0 && path[0] == '/'
            && path.len() <= line.len() && path == line.subrange(
            line.len() - path.len(),
            line.len() as int,
        ),
{
    lemma_field_start_bounds(line, 5);
    if let Some(r) = field_start(line, 5) {
        lemma_padding_end_bounds(line, r);
    }
}

} // verus!
