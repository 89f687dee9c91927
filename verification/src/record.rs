//! The autogroup record: its text format and the adjustment step.
//!
//! The pseudo-file holds whitespace-separated fields, conventionally a
//! group identifier and a niceness value.  The last field is the niceness;
//! every other field is opaque text preserved verbatim.  Adjusting a record
//! means parsing the last field, clamping the adjusted value, and joining
//! the fields back with single spaces and a trailing newline.

use crate::nice::new_niceness;
use crate::nice::spec_new_niceness;
use crate::num::digit_char;
use crate::num::format_i32;
use crate::num::spec_digits_of;
use crate::num::lemma_decimal_round_trip;
use crate::num::parse_i32;
use crate::num::spec_decimal;
use crate::num::spec_parse_i32;
use vstd::prelude::*;

verus! {

/// True of the characters that separate fields.
pub open spec fn is_space(c: char) -> bool {
    c == ' ' || c == '\n' || c == '\t' || c == '\r'
}

/// Helper for [`spec_fields`]: the fields of `s`, continuing a partial
/// field `cur`, after the completed fields `acc`.
pub open spec fn fields_from(s: Seq<char>, cur: Seq<char>, acc: Seq<Seq<char>>) -> Seq<Seq<char>>
    decreases s.len(),
{
    if s.len() == 0 {
        if cur.len() == 0 {
            acc
        } else {
            acc.push(cur)
        }
    } else if is_space(s[0]) {
        if cur.len() == 0 {
            fields_from(s.drop_first(), Seq::empty(), acc)
        } else {
            fields_from(s.drop_first(), Seq::empty(), acc.push(cur))
        }
    } else {
        fields_from(s.drop_first(), cur.push(s[0]), acc)
    }
}

/// The whitespace-separated fields of a record's text, in order, with
/// empty pieces dropped.
pub open spec fn spec_fields(s: Seq<char>) -> Seq<Seq<char>> {
    fields_from(s, Seq::empty(), Seq::empty())
}

/// Split a record's text into its whitespace-separated fields.
pub fn split_fields(s: &str) -> (r: Vec<String>)
    ensures
        r.deep_view() == spec_fields(s@),
{
    let n = s.unicode_len();
    let mut out: Vec<String> = Vec::new();
    let mut cur = String::new();
    let mut i: usize = 0;
    proof {
        assert(s@.skip(0) =~= s@);
        assert(out.deep_view() =~= Seq::<Seq<char>>::empty());
    }
    while i < n
        invariant
            i <= n,
            n == s@.len(),
            fields_from(s@.skip(i as int), cur@, out.deep_view()) == spec_fields(s@),
        decreases n - i,
    {
        let ghost pre = s@.skip(i as int);
        proof {
            assert(pre.drop_first() =~= s@.skip(i + 1));
            assert(pre[0] == s@[i as int]);
        }
        let c = s.get_char(i);
        if c == ' ' || c == '\n' || c == '\t' || c == '\r' {
            if !cur.as_str().is_empty() {
                let ghost old_dv = out.deep_view();
                let ghost cur_v = cur@;
                out.push(cur);
                cur = String::new();
                proof {
                    assert(out.deep_view() =~~= old_dv.push(cur_v));
                }
            } else {
                proof {
                    assert(cur@ =~= Seq::<char>::empty());
                }
            }
        } else {
            let ghost cur_v = cur@;
            let piece = s.substring_char(i, i + 1);
            cur.append(piece);
            proof {
                assert(piece@ =~= seq![s@[i as int]]);
                assert(cur@ =~= cur_v.push(s@[i as int]));
            }
        }
        i = i + 1;
    }
    proof {
        assert(s@.skip(n as int) =~= Seq::<char>::empty());
    }
    if !cur.as_str().is_empty() {
        let ghost old_dv = out.deep_view();
        let ghost cur_v = cur@;
        out.push(cur);
        proof {
            assert(out.deep_view() =~~= old_dv.push(cur_v));
        }
    } else {
        proof {
            assert(cur@ =~= Seq::<char>::empty());
        }
    }
    out
}

/// The fields from index `i` on, joined by single spaces.
pub open spec fn join_from(fs: Seq<Seq<char>>, i: int) -> Seq<char>
    decreases fs.len() - i,
{
    if i < 0 || i >= fs.len() {
        Seq::empty()
    } else if i == fs.len() - 1 {
        fs[i]
    } else {
        fs[i] + seq![' '] + join_from(fs, i + 1)
    }
}

/// The fields joined by single spaces.
pub open spec fn spec_join(fs: Seq<Seq<char>>) -> Seq<char> {
    join_from(fs, 0)
}

/// Append the fields from `i` on to `out`, separated by single spaces.
fn append_fields(out: &mut String, fields: &Vec<String>, i: usize)
    requires
        i as int <= fields@.len(),
    ensures
        final(out)@ == old(out)@ + join_from(fields.deep_view(), i as int),
    decreases fields@.len() - i,
{
    let ghost dv = fields.deep_view();
    if i < fields.len() {
        out.append(fields[i].as_str());
        proof {
            assert(dv[i as int] == fields@[i as int]@);
        }
        if i + 1 < fields.len() {
            out.append(" ");
            proof {
                reveal_strlit(" ");
            }
            append_fields(out, fields, i + 1);
            proof {
                assert(out@ =~= old(out)@ + (dv[i as int] + seq![' '] + join_from(dv, i + 1)));
            }
        } else {
            proof {
                assert(out@ =~= old(out)@ + join_from(dv, i as int));
            }
        }
    } else {
        proof {
            assert(old(out)@ + Seq::<char>::empty() =~= old(out)@);
        }
    }
}

/// A field as the splitter produces it: nonempty, with no separator
/// character inside.
pub open spec fn good_field(f: Seq<char>) -> bool {
    &&& f.len() > 0
    &&& forall|i: int| 0 <= i < f.len() ==> !is_space(#[trigger] f[i])
}

/// True when every field is one the splitter could produce.
pub open spec fn good_fields(fs: Seq<Seq<char>>) -> bool {
    forall|i: int| 0 <= i < fs.len() ==> good_field(#[trigger] fs[i])
}

proof fn lemma_good_push(acc: Seq<Seq<char>>, f: Seq<char>)
    requires
        good_fields(acc),
        good_field(f),
    ensures
        good_fields(acc.push(f)),
{
    assert forall|i: int| 0 <= i < acc.push(f).len() implies good_field(
        #[trigger] acc.push(f)[i],
    ) by {
        if i < acc.len() {
            assert(acc.push(f)[i] == acc[i]);
        } else {
            assert(acc.push(f)[i] == f);
        }
    }
}

proof fn lemma_fields_from_good(s: Seq<char>, cur: Seq<char>, acc: Seq<Seq<char>>)
    requires
        good_fields(acc),
        forall|i: int| 0 <= i < cur.len() ==> !is_space(#[trigger] cur[i]),
    ensures
        good_fields(fields_from(s, cur, acc)),
    decreases s.len(),
{
    if s.len() == 0 {
        if cur.len() > 0 {
            lemma_good_push(acc, cur);
        }
    } else if is_space(s[0]) {
        if cur.len() == 0 {
            lemma_fields_from_good(s.drop_first(), Seq::empty(), acc);
        } else {
            lemma_good_push(acc, cur);
            lemma_fields_from_good(s.drop_first(), Seq::empty(), acc.push(cur));
        }
    } else {
        assert forall|i: int| 0 <= i < cur.push(s[0]).len() implies !is_space(
            #[trigger] cur.push(s[0])[i],
        ) by {
            if i < cur.len() {
                assert(cur.push(s[0])[i] == cur[i]);
            } else {
                assert(cur.push(s[0])[i] == s[0]);
            }
        }
        lemma_fields_from_good(s.drop_first(), cur.push(s[0]), acc);
    }
}

/// Every field a split yields is nonempty and free of separators.
pub proof fn lemma_spec_fields_good(s: Seq<char>)
    ensures
        good_fields(spec_fields(s)),
{
    lemma_fields_from_good(s, Seq::empty(), Seq::empty());
}

/// Scanning a separator-free piece only extends the field in progress.
proof fn lemma_fields_from_field(f: Seq<char>, t: Seq<char>, cur: Seq<char>, acc: Seq<Seq<char>>)
    requires
        forall|i: int| 0 <= i < f.len() ==> !is_space(#[trigger] f[i]),
    ensures
        fields_from(f + t, cur, acc) == fields_from(t, cur + f, acc),
    decreases f.len(),
{
    if f.len() == 0 {
        assert(f + t =~= t);
        assert(cur + f =~= cur);
    } else {
        assert((f + t)[0] == f[0]);
        assert((f + t).drop_first() =~= f.drop_first() + t);
        assert forall|i: int| 0 <= i < f.drop_first().len() implies !is_space(
            #[trigger] f.drop_first()[i],
        ) by {
            assert(f.drop_first()[i] == f[i + 1]);
        }
        lemma_fields_from_field(f.drop_first(), t, cur.push(f[0]), acc);
        assert(cur.push(f[0]) + f.drop_first() =~= cur + f);
    }
}

/// Scanning the joined fields from `i` on, then a newline, appends those
/// fields to the accumulator.
proof fn lemma_fields_from_join(fs: Seq<Seq<char>>, i: int, acc: Seq<Seq<char>>)
    requires
        good_fields(fs),
        0 <= i < fs.len(),
    ensures
        fields_from(join_from(fs, i) + seq!['\n'], Seq::empty(), acc) == acc + fs.skip(i),
    decreases fs.len() - i,
{
    assert(good_field(fs[i]));
    if i == fs.len() - 1 {
        lemma_fields_from_field(fs[i], seq!['\n'], Seq::empty(), acc);
        assert(Seq::<char>::empty() + fs[i] =~= fs[i]);
        assert(seq!['\n'][0] == '\n');
        assert(seq!['\n'].drop_first() =~= Seq::<char>::empty());
        assert(fields_from(seq!['\n'], fs[i], acc) == fields_from(
            Seq::<char>::empty(),
            Seq::<char>::empty(),
            acc.push(fs[i]),
        ));
        assert(fields_from(Seq::<char>::empty(), Seq::<char>::empty(), acc.push(fs[i]))
            == acc.push(fs[i]));
        assert(acc.push(fs[i]) =~= acc + fs.skip(i));
    } else {
        let rest = join_from(fs, i + 1);
        let tail = seq![' '] + rest + seq!['\n'];
        assert((fs[i] + seq![' '] + rest) + seq!['\n'] =~= fs[i] + tail);
        lemma_fields_from_field(fs[i], tail, Seq::empty(), acc);
        assert(Seq::<char>::empty() + fs[i] =~= fs[i]);
        assert(tail[0] == ' ');
        assert(tail.drop_first() =~= rest + seq!['\n']);
        assert(fields_from(tail, fs[i], acc) == fields_from(
            rest + seq!['\n'],
            Seq::<char>::empty(),
            acc.push(fs[i]),
        ));
        lemma_fields_from_join(fs, i + 1, acc.push(fs[i]));
        assert(acc.push(fs[i]) + fs.skip(i + 1) =~= acc + fs.skip(i));
    }
}

/// The digit text of a nonnegative number is nonempty and free of
/// separators.
proof fn lemma_digits_good(n: int)
    requires
        n >= 0,
    ensures
        spec_digits_of(n).len() > 0,
        forall|i: int| 0 <= i < spec_digits_of(n).len() ==> !is_space(
            #[trigger] spec_digits_of(n)[i],
        ),
    decreases n,
{
    if n < 10 {
        assert(!is_space(digit_char(n)));
    } else {
        lemma_digits_good(n / 10);
        assert(!is_space(digit_char(n % 10)));
        assert forall|i: int| 0 <= i < spec_digits_of(n).len() implies !is_space(
            #[trigger] spec_digits_of(n)[i],
        ) by {
            if i < spec_digits_of(n / 10).len() {
                assert(spec_digits_of(n)[i] == spec_digits_of(n / 10)[i]);
            } else {
                assert(spec_digits_of(n)[i] == digit_char(n % 10));
            }
        }
    }
}

/// The decimal text of any integer is a valid record field.
pub proof fn lemma_decimal_good(n: int)
    ensures
        good_field(spec_decimal(n)),
{
    if n < 0 {
        lemma_digits_good(-n);
        assert(!is_space('-'));
        assert forall|i: int| 0 <= i < spec_decimal(n).len() implies !is_space(
            #[trigger] spec_decimal(n)[i],
        ) by {
            if i == 0 {
                assert(spec_decimal(n)[i] == '-');
            } else {
                assert(spec_decimal(n)[i] == spec_digits_of(-n)[i - 1]);
            }
        }
    } else {
        lemma_digits_good(n);
    }
}

/// Reassembly preserves the record's structure: splitting the new content
/// yields the original fields, in order and in number, with only the last
/// replaced by the decimal text of the new niceness.
pub proof fn lemma_new_content_fields(s: Seq<char>, new: int)
    requires
        spec_fields(s).len() >= 1,
    ensures
        spec_fields(spec_new_content(spec_fields(s), new)) == spec_fields(s).update(
            spec_fields(s).len() - 1,
            spec_decimal(new),
        ),
{
    let fs = spec_fields(s);
    let updated = fs.update(fs.len() - 1, spec_decimal(new));
    lemma_spec_fields_good(s);
    lemma_decimal_good(new);
    assert forall|i: int| 0 <= i < updated.len() implies good_field(#[trigger] updated[i]) by {
        if i == fs.len() - 1 {
            assert(updated[i] == spec_decimal(new));
        } else {
            assert(updated[i] == fs[i]);
        }
    }
    lemma_fields_from_join(updated, 0, Seq::empty());
    assert(Seq::<Seq<char>>::empty() + updated.skip(0) =~= updated);
}

/// A successful adjustment preserves the record's field structure: the
/// new content splits back into the old fields with only the niceness
/// field replaced, by the decimal text of the clamped value.
pub proof fn lemma_adjust_preserves_fields(s: Seq<char>, adj: int, a: Adjusted)
    requires
        adjust_ok(s, adj, a),
    ensures
        spec_fields(a.new_content@) == spec_fields(s).update(
            spec_fields(s).len() - 1,
            spec_decimal(a.new_niceness as int),
        ),
{
    lemma_new_content_fields(s, a.new_niceness as int);
}

/// The written record reads back consistently: after a successful
/// adjustment, the new content is itself a well-formed record with as
/// many fields as the old one, and its niceness field parses back to
/// exactly the clamped value.
pub proof fn lemma_round_trip(s: Seq<char>, adj: int, a: Adjusted)
    requires
        adjust_ok(s, adj, a),
    ensures
        spec_fields(a.new_content@).len() == spec_fields(s).len(),
        spec_parse_i32(spec_fields(a.new_content@).last()) == Some(a.new_niceness as int),
        !record_malformed(a.new_content@),
{
    lemma_new_content_fields(s, a.new_niceness as int);
    lemma_decimal_round_trip(a.new_niceness as int);
}

/// How reading or writing the pseudo-file failed, as classified by the
/// caller that performed the I/O.
#[derive(Clone, Copy, Debug, PartialEq, Eq, Structural)]
pub enum IoFailure {
    /// The path does not exist: no such process, or autogroups disabled.
    NotFound,
    /// The caller may not touch the file.
    PermissionDenied,
    /// Any other I/O failure.
    Other,
}

/// Why an adjustment failed.
#[derive(Clone, Copy, Debug, PartialEq, Eq, Structural)]
pub enum AdjustError {
    /// The pseudo-file could not be read or written.
    Unavailable(IoFailure),
    /// The record did not have the expected shape: at least two
    /// whitespace-separated fields, the last a decimal niceness value.
    Malformed,
}

/// The outcome of a successful adjustment.
pub struct Adjusted {
    /// The record's first field, the autogroup identifier.
    pub group: String,
    /// The niceness the record held.
    pub old_niceness: i32,
    /// The clamped niceness the new record holds.
    pub new_niceness: i32,
    /// The new record text, for the caller to write back.
    pub new_content: String,
}

/// True when record text `s` cannot be adjusted: fewer than two fields,
/// or a last field that is not a decimal `i32`.
pub open spec fn record_malformed(s: Seq<char>) -> bool {
    ||| spec_fields(s).len() < 2
    ||| spec_parse_i32(spec_fields(s).last()) is None
}

/// The new record text after an adjustment: the fields with the last
/// replaced by the decimal text of `new`, joined by single spaces, with a
/// trailing newline.
pub open spec fn spec_new_content(fs: Seq<Seq<char>>, new: int) -> Seq<char> {
    spec_join(fs.update(fs.len() - 1, spec_decimal(new))) + seq!['\n']
}

/// What a successful adjustment of record text `s` by `adj` yields.
pub open spec fn adjust_ok(s: Seq<char>, adj: int, a: Adjusted) -> bool {
    let fs = spec_fields(s);
    &&& fs.len() >= 2
    &&& a.group@ == fs[0]
    &&& spec_parse_i32(fs.last()) == Some(a.old_niceness as int)
    &&& a.new_niceness as int == spec_new_niceness(a.old_niceness as int, adj)
    &&& a.new_content@ == spec_new_content(fs, a.new_niceness as int)
}

/// Parse a record's text, apply the adjustment to its niceness, and
/// reassemble the record.  Performs no I/O: the caller reads the text
/// beforehand and writes `new_content` back afterwards.
pub fn adjust_record(contents: &str, adjustment: i32) -> (r: Result<Adjusted, AdjustError>)
    ensures
        match r {
            Ok(a) => adjust_ok(contents@, adjustment as int, a) && !record_malformed(
                contents@,
            ),
            Err(e) => e == AdjustError::Malformed && record_malformed(contents@),
        },
{
    let ghost fs = spec_fields(contents@);
    let mut fields = split_fields(contents);
    if fields.len() < 2 {
        return Err(AdjustError::Malformed);
    }
    let last_index = fields.len() - 1;
    proof {
        assert(fs.last() == fields@[last_index as int]@);
    }
    match parse_i32(fields[last_index].as_str()) {
        None => Err(AdjustError::Malformed),
        Some(old) => {
            let new = new_niceness(old, adjustment);
            let rendered = format_i32(new);
            let group = fields[0].clone();
            let ghost dv = fields.deep_view();
            fields.set(last_index, rendered);
            proof {
                assert(fields.deep_view() =~~= dv.update(last_index as int, spec_decimal(new as int)));
            }
            let mut content = String::new();
            append_fields(&mut content, &fields, 0);
            content.append("\n");
            proof {
                reveal_strlit("\n");
                assert(content@ =~= spec_new_content(fs, new as int));
            }
            Ok(Adjusted { group, old_niceness: old, new_niceness: new, new_content: content })
        },
    }
}

/// One full adjustment step, after the caller has read the pseudo-file.
/// A failed read becomes `Unavailable` with its classification; a
/// successful read has its record adjusted.  Nothing is written here: the
/// caller writes `new_content` back only on success, so a failed
/// adjustment writes nothing.
pub fn adjust(read: Result<String, IoFailure>, adjustment: i32) -> (r: Result<Adjusted, AdjustError>)
    ensures
        match read {
            Err(f) => r == Err::<Adjusted, AdjustError>(AdjustError::Unavailable(f)),
            Ok(c) => match r {
                Ok(a) => adjust_ok(c@, adjustment as int, a) && !record_malformed(c@),
                Err(e) => e == AdjustError::Malformed && record_malformed(c@),
            },
        },
{
    match read {
        Err(f) => Err(AdjustError::Unavailable(f)),
        Ok(c) => adjust_record(c.as_str(), adjustment),
    }
}

} // verus!
