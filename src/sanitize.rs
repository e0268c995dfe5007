use vstd::prelude::*;
use vstd::string::StringSliceAdditionalSpecFns;
use vstd::utf8::{
    decode_utf8, encode_utf8, encode_utf8_decode_utf8, encode_utf8_valid_utf8, is_char_boundary,
    is_char_boundary_iff_not_is_continuation_byte, is_char_boundary_start_end_of_seq, valid_utf8,
};

verus! {

/// The path separator, `/`.
pub const SEPARATOR: u8 = 47;

/// The byte of `.`.
pub const DOT: u8 = 46;

/// The name used when a received name holds no usable component.
pub open spec fn fallback_name() -> Seq<char> {
    "received_file"@
}

/// Index of the last separator in `b[0..end]`, or -1 when there is none.
pub open spec fn last_separator(b: Seq<u8>, end: int) -> int
    decreases end,
{
    if end <= 0 {
        -1
    } else if b[end - 1] == SEPARATOR {
        end - 1
    } else {
        last_separator(b, end - 1)
    }
}

proof fn lemma_last_separator_bounds(b: Seq<u8>, end: int)
    ensures
        end >= 0 ==> -1 <= last_separator(b, end) < end,
    decreases end,
{
    if end > 0 && b[end - 1] != SEPARATOR {
        lemma_last_separator_bounds(b, end - 1);
    }
}

/// The last component of the path `b[0..end]`, as `Path::file_name` reads a
/// Unix path: empty components and `.` are skipped, and a last component of
/// `..`, or none at all, gives no name.
pub open spec fn file_name_in(b: Seq<u8>, end: int) -> Option<Seq<u8>>
    decreases end,
    via file_name_in_decreases
{
    if end < 0 {
        None
    } else {
        let i = last_separator(b, end);
        let seg = b.subrange(i + 1, end);
        if seg == seq![DOT, DOT] {
            None
        } else if seg.len() == 0 || seg == seq![DOT] {
            if i < 0 {
                None
            } else {
                file_name_in(b, i)
            }
        } else {
            Some(seg)
        }
    }
}

#[via_fn]
proof fn file_name_in_decreases(b: Seq<u8>, end: int) {
    lemma_last_separator_bounds(b, end);
}

/// The last component of the path `b`, if it has one.
pub open spec fn file_name_of(b: Seq<u8>) -> Option<Seq<u8>> {
    file_name_in(b, b.len() as int)
}

/// What `sanitize_file_name` makes of a name with the UTF-8 bytes `b`.
pub open spec fn sanitized(b: Seq<u8>) -> Seq<char> {
    match file_name_of(b) {
        Some(n) => decode_utf8(n),
        None => fallback_name(),
    }
}

/// Position after a separator in valid UTF-8 is a character boundary.
proof fn lemma_boundary_after_separator(b: Seq<u8>, i: int)
    requires
        valid_utf8(b),
        0 <= i < b.len(),
        b[i] == SEPARATOR,
    ensures
        is_char_boundary(b, i),
        is_char_boundary(b.subrange(i, b.len() as int), 1),
        valid_utf8(b.subrange(i, b.len() as int)),
{
    is_char_boundary_iff_not_is_continuation_byte(b, i);
    vstd::utf8::valid_utf8_split(b, i);
    let t = b.subrange(i, b.len() as int);
    assert(t[0] == SEPARATOR);
    reveal_with_fuel(is_char_boundary, 2);
}

fn fallback() -> (r: String)
    ensures
        r@ == fallback_name(),
{
    let r = "received_file".to_owned();
    proof {
        reveal_strlit("received_file");
    }
    r
}

/// Sanitize a received file name to avoid directory traversal: keep only
/// its last path component, or a fixed name when it has none.
///
/// Unix path rules apply: `/` is the only separator, so a `\` is an
/// ordinary character of a name.
pub fn sanitize_file_name(input: &str) -> (r: String)
    ensures
        r@ == sanitized(input.spec_bytes()),
{
    let bytes = input.as_bytes();
    let ghost b = input.spec_bytes();
    let mut end: usize = bytes.len();
    loop
        invariant
            bytes@ == b,
            b == input.spec_bytes(),
            end <= b.len(),
            file_name_in(b, end as int) == file_name_of(b),
            end < b.len() ==> b[end as int] == SEPARATOR,
        decreases end,
    {
        let mut start: usize = end;
        while start > 0 && bytes[start - 1] != SEPARATOR
            invariant
                bytes@ == b,
                start <= end <= b.len(),
                last_separator(b, end as int) == last_separator(b, start as int),
            decreases start,
        {
            start = start - 1;
        }
        let ghost i = last_separator(b, end as int);
        assert(i == start - 1);
        let len = end - start;
        let is_dot = len == 1 && bytes[start] == DOT;
        let is_dot_dot = len == 2 && bytes[start] == DOT && bytes[start + 1] == DOT;
        proof {
            let seg = b.subrange(start as int, end as int);
            if is_dot_dot {
                assert(seg =~= seq![DOT, DOT]);
            } else {
                if seg == seq![DOT, DOT] {
                    assert(seg[0] == DOT && seg[1] == DOT);
                }
            }
            if is_dot {
                assert(seg =~= seq![DOT]);
            } else if seg == seq![DOT] {
                assert(seg[0] == DOT);
            }
        }
        if is_dot_dot {
            return fallback();
        }
        if len == 0 || is_dot {
            if start == 0 {
                return fallback();
            }
            proof {
                let seg = b.subrange(start as int, end as int);
                assert(seg.len() == 0 || seg == seq![DOT]);
                assert(seq![DOT, DOT].len() == 2);
                assert(seg != seq![DOT, DOT]);
                assert(last_separator(b, end as int) == start - 1);
                assert(file_name_in(b, end as int) == file_name_in(b, start - 1));
            }
            end = start - 1;
        } else {
            proof {
                encode_utf8_valid_utf8(input@);
                if end == b.len() {
                    is_char_boundary_start_end_of_seq(b);
                } else {
                    is_char_boundary_iff_not_is_continuation_byte(b, end as int);
                }
            }
            let (head, _) = input.split_at(end);
            let component = if start == 0 {
                head
            } else {
                proof {
                    encode_utf8_valid_utf8(head@);
                    lemma_boundary_after_separator(head.spec_bytes(), start - 1);
                }
                let (_, tail) = head.split_at(start - 1);
                let (_, component) = tail.split_at(1);
                proof {
                    assert(component.spec_bytes() =~= b.subrange(start as int, end as int));
                }
                component
            };
            proof {
                assert(component.spec_bytes() =~= b.subrange(start as int, end as int));
                encode_utf8_decode_utf8(component@);
            }
            return component.to_owned();
        }
    }
}

} // verus!
