use vstd::prelude::*;
use vstd::string::StringSliceAdditionalSpecFns;
use crate::grid::{pow4, SudokuGrid, SudokuParseError};

verus! {

/// `s` cut at every `sep`; the pieces hold no `sep`, and there is one more piece than `sep`s.
pub open spec fn split(s: Seq<u8>, sep: u8) -> Seq<Seq<u8>>
    decreases s.len(),
{
    if s.len() == 0 {
        seq![Seq::empty()]
    } else {
        let p = split(s.drop_last(), sep);
        if s.last() == sep {
            p.push(Seq::empty())
        } else {
            p.update(p.len() - 1, p.last().push(s.last()))
        }
    }
}

/// A line without the carriage return before its newline.
pub open spec fn strip_cr(l: Seq<u8>) -> Seq<u8> {
    if l.len() > 0 && l.last() == 13u8 {
        l.drop_last()
    } else {
        l
    }
}

/// The lines of `s`: cut at each newline, a carriage return just before a newline dropped,
/// and no empty line after a final newline.
pub open spec fn lines(s: Seq<u8>) -> Seq<Seq<u8>> {
    let p = split(s, 10u8);
    let n = p.len() as int;
    let k = if p[n - 1].len() == 0 { n - 1 } else { n };
    Seq::new(k as nat, |i: int| if i < n - 1 { strip_cr(p[i]) } else { p[i] })
}

/// The comma-separated fields of the lines `ls`, in order.
pub open spec fn line_fields(ls: Seq<Seq<u8>>) -> Seq<Seq<u8>>
    decreases ls.len(),
{
    if ls.len() == 0 {
        Seq::empty()
    } else {
        line_fields(ls.drop_last()) + split(ls.last(), 44u8)
    }
}

/// The value of a run of decimal digits.
pub open spec fn digits_value(d: Seq<u8>) -> nat
    decreases d.len(),
{
    if d.len() == 0 {
        0
    } else {
        digits_value(d.drop_last()) * 10 + (d.last() - 48) as nat
    }
}

/// `d` is a non-empty run of decimal digits.
pub open spec fn is_digits(d: Seq<u8>) -> bool {
    d.len() > 0 && forall|i: int| 0 <= i < d.len() ==> 48 <= #[trigger] d[i] <= 57
}

/// The square value a field stands for: 0 when empty, else decimal digits after an optional
/// `+`, at most `u32::MAX`; `None` for anything else.
pub open spec fn field_value(f: Seq<u8>) -> Option<u32> {
    if f.len() == 0 {
        Some(0u32)
    } else {
        let d = if f[0] == 43u8 { f.drop_first() } else { f };
        if is_digits(d) && digits_value(d) <= u32::MAX {
            Some(digits_value(d) as u32)
        } else {
            None
        }
    }
}

/// Every field of the text `s` stands for a value.
pub open spec fn fields_valid(s: Seq<u8>) -> bool {
    forall|k: int| 0 <= k < line_fields(lines(s)).len() ==> #[trigger] field_value(line_fields(lines(s))[k]) is Some
}

/// The values of the fields of `s`, row by row.
pub open spec fn field_values(s: Seq<u8>) -> Seq<u32> {
    let fs = line_fields(lines(s));
    Seq::new(fs.len(), |k: int| field_value(fs[k])->0)
}

proof fn lemma_split_nonempty(s: Seq<u8>, sep: u8)
    ensures
        split(s, sep).len() >= 1,
    decreases s.len(),
{
    if s.len() > 0 {
        lemma_split_nonempty(s.drop_last(), sep);
    }
}

/// Cuts the first `end` bytes of `s` at every `sep`.
fn split_bytes(s: &[u8], end: usize, sep: u8) -> (r: Vec<Vec<u8>>)
    requires
        end <= s@.len(),
    ensures
        r@.map_values(|v: Vec<u8>| v@) == split(s@.take(end as int), sep),
{
    let mut out: Vec<Vec<u8>> = Vec::new();
    out.push(Vec::new());
    let mut i: usize = 0;
    proof {
        assert(s@.take(0) =~= Seq::<u8>::empty());
        assert(out@.map_values(|v: Vec<u8>| v@) =~= split(s@.take(0), sep));
    }
    while i < end
        invariant
            end <= s@.len(),
            i <= end,
            out@.len() >= 1,
            out@.map_values(|v: Vec<u8>| v@) == split(s@.take(i as int), sep),
        decreases end - i,
    {
        let ghost prev = out@.map_values(|v: Vec<u8>| v@);
        proof {
            assert(s@.take(end as int).take(i + 1).drop_last() =~= s@.take(end as int).take(i as int));
            assert(s@.take(i + 1) =~= s@.take(end as int).take(i + 1));
            assert(s@.take(i as int) =~= s@.take(end as int).take(i as int));
            lemma_split_nonempty(s@.take(i as int), sep);
        }
        if s[i] == sep {
            out.push(Vec::new());
            proof {
                assert(out@.map_values(|v: Vec<u8>| v@) =~= prev.push(Seq::empty()));
            }
        } else {
            let last = out.len() - 1;
            let mut piece = out.pop().unwrap();
            piece.push(s[i]);
            out.push(piece);
            proof {
                assert(out@.map_values(|v: Vec<u8>| v@) =~= prev.update(last as int, prev.last().push(s@[i as int])));
            }
        }
        i = i + 1;
    }
    out
}

/// The value of the field `f`, as `field_value` gives it.
fn parse_field(f: &Vec<u8>) -> (r: Option<u32>)
    ensures
        r == field_value(f@),
{
    if f.len() == 0 {
        return Some(0);
    }
    let start: usize = if f[0] == 43u8 { 1 } else { 0 };
    let ghost d = if f@[0] == 43u8 { f@.drop_first() } else { f@ };
    proof {
        assert(d =~= f@.subrange(start as int, f@.len() as int));
    }
    if start == f.len() {
        return None;
    }
    let mut acc: u64 = 0;
    let mut over = false;
    let mut i: usize = start;
    while i < f.len()
        invariant
            start <= i <= f@.len(),
            d == f@.subrange(start as int, f@.len() as int),
            f@.len() > 0,
            d == (if f@[0] == 43u8 { f@.drop_first() } else { f@ }),
            forall|q: int| 0 <= q < i - start ==> 48 <= #[trigger] d[q] <= 57,
            !over ==> acc == digits_value(d.take(i - start)) && acc <= u32::MAX,
            over ==> digits_value(d.take(i - start)) > u32::MAX,
        decreases f@.len() - i,
    {
        let b = f[i];
        if b < 48 || b > 57 {
            proof {
                assert(d[i - start] == b);
                assert(!is_digits(d));
            }
            return None;
        }
        proof {
            assert(d.take(i - start + 1).drop_last() =~= d.take(i - start));
            assert(d.take(i - start + 1).last() == b);
        }
        if !over {
            acc = acc * 10 + (b - 48) as u64;
            if acc > 0xffff_ffff {
                over = true;
            }
        }
        i = i + 1;
    }
    proof {
        assert(d.take(d.len() as int) =~= d);
    }
    if over {
        None
    } else {
        Some(acc as u32)
    }
}

/// The fields of the first `m` lines lead the fields of the first `m2` lines.
proof fn lemma_line_fields_prefix(ls: Seq<Seq<u8>>, m: int, m2: int)
    requires
        0 <= m <= m2 <= ls.len(),
    ensures
        line_fields(ls.take(m)).len() <= line_fields(ls.take(m2)).len(),
        forall|q: int|
            0 <= q < line_fields(ls.take(m)).len() ==> #[trigger] line_fields(ls.take(m2))[q] == line_fields(ls.take(m))[q],
    decreases m2 - m,
{
    if m < m2 {
        lemma_line_fields_prefix(ls, m, m2 - 1);
        assert(ls.take(m2).drop_last() =~= ls.take(m2 - 1));
    }
}

impl SudokuGrid {
    /// Reads a board from text: one row per line, squares separated by commas, an empty
    /// field for an empty square. A field that is not a number is refused first; then the
    /// values are checked as `try_from` checks them.
    pub fn from_str(s: &str) -> (r: Result<SudokuGrid, SudokuParseError>)
        ensures
            !fields_valid(s.spec_bytes()) ==> (r matches Err(SudokuParseError::InvalidDigit)),
            fields_valid(s.spec_bytes()) ==> SudokuGrid::built_from(field_values(s.spec_bytes()), r),
    {
        let bytes = s.as_bytes();
        let ghost b = bytes@;
        let parts = split_bytes(bytes, bytes.len(), 10u8);
        let ghost p = parts@.map_values(|v: Vec<u8>| v@);
        let ghost ls = lines(b);
        proof {
            assert(b.take(b.len() as int) =~= b);
            lemma_split_nonempty(b, 10u8);
        }
        let n = parts.len();
        let k = if parts[n - 1].len() == 0 { n - 1 } else { n };
        let mut tiles: Vec<u32> = Vec::new();
        let mut i: usize = 0;
        proof {
            assert(ls.take(0) =~= Seq::<Seq<u8>>::empty());
        }
        while i < k
            invariant
                b == s.spec_bytes(),
                ls == lines(b),
                p == split(b, 10u8),
                p == parts@.map_values(|v: Vec<u8>| v@),
                n == parts@.len(),
                n >= 1,
                k == ls.len(),
                k <= n,
                i <= k,
                tiles@.len() == line_fields(ls.take(i as int)).len(),
                forall|q: int|
                    0 <= q < tiles@.len() ==> field_value(#[trigger] line_fields(ls.take(i as int))[q]) == Some(tiles@[q]),
            decreases k - i,
        {
            let line = &parts[i];
            let len = line.len();
            let end = if i < n - 1 && len > 0 && line[len - 1] == 13u8 { len - 1 } else { len };
            proof {
                assert(p[i as int] == line@);
                assert(line@.take(end as int) == ls[i as int]);
            }
            let fields = split_bytes(line.as_slice(), end, 44u8);
            let ghost fl = fields@.map_values(|v: Vec<u8>| v@);
            let ghost before = line_fields(ls.take(i as int));
            proof {
                assert(ls.take(i + 1).drop_last() =~= ls.take(i as int));
                assert(line_fields(ls.take(i + 1)) == before + fl);
                lemma_line_fields_prefix(ls, i + 1, k as int);
                assert(ls.take(k as int) =~= ls);
            }
            let mut j: usize = 0;
            while j < fields.len()
                invariant
                    fl == fields@.map_values(|v: Vec<u8>| v@),
                    j <= fields@.len(),
                    tiles@.len() == before.len() + j,
                    line_fields(ls.take(i + 1)) == before + fl,
                    forall|q: int| 0 <= q < tiles@.len() ==> field_value(#[trigger] (before + fl)[q]) == Some(tiles@[q]),
                    forall|q: int|
                        0 <= q < line_fields(ls.take(i + 1)).len() ==> #[trigger] line_fields(ls)[q] == line_fields(ls.take(i + 1))[q],
                    line_fields(ls.take(i + 1)).len() <= line_fields(ls).len(),
                    ls == lines(b),
                    b == s.spec_bytes(),
                decreases fields@.len() - j,
            {
                match parse_field(&fields[j]) {
                    Some(v) => {
                        proof {
                            assert(fl[j as int] == fields@[j as int]@);
                        }
                        tiles.push(v);
                    },
                    None => {
                        proof {
                            let q = before.len() + j;
                            assert(fl[j as int] == fields@[j as int]@);
                            assert((before + fl)[q] == fl[j as int]);
                            assert(line_fields(ls)[q] == fl[j as int]);
                            assert(field_value(line_fields(lines(b))[q]) is None);
                        }
                        return Err(SudokuParseError::InvalidDigit);
                    },
                }
                j = j + 1;
            }
            proof {
                assert forall|q: int| 0 <= q < tiles@.len() implies field_value(
                    #[trigger] line_fields(ls.take(i + 1))[q],
                ) == Some(tiles@[q]) by {
                    assert((before + fl)[q] == line_fields(ls.take(i + 1))[q]);
                }
            }
            i = i + 1;
        }
        proof {
            assert(ls.take(k as int) =~= ls);
            assert(tiles@ =~= field_values(b));
        }
        SudokuGrid::try_from(tiles)
    }
}

impl std::str::FromStr for SudokuGrid {
    type Err = SudokuParseError;

    fn from_str(s: &str) -> Result<SudokuGrid, SudokuParseError> {
        SudokuGrid::from_str(s)
    }
}

} // verus!
