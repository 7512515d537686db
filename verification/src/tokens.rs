//! The tokens of a document: white space, delimiters and what they enclose.

use vstd::prelude::*;

verus! {

/// White space between the tokens of a document.
pub open spec fn is_space(c: u8) -> bool {
    c == 0x20 || c == 0x09 || c == 0x0A || c == 0x0D || c == 0x00 || c == 0x0C
}

/// A byte that ends a token and begins another.
pub open spec fn is_delimiter(c: u8) -> bool {
    c == 0x28 || c == 0x29 || c == 0x3C || c == 0x3E || c == 0x5B || c == 0x5D || c == 0x7B || c
        == 0x7D || c == 0x2F || c == 0x25
}

/// A byte that names, numbers and keywords are made of.
pub open spec fn is_regular(c: u8) -> bool {
    !is_space(c) && !is_delimiter(c)
}

/// Whether a byte is white space.
pub fn space(c: u8) -> (r: bool)
    ensures
        r == is_space(c),
{
    c == 0x20 || c == 0x09 || c == 0x0A || c == 0x0D || c == 0x00 || c == 0x0C
}

/// Whether a byte ends a token and begins another.
pub fn delimiter(c: u8) -> (r: bool)
    ensures
        r == is_delimiter(c),
{
    c == 0x28 || c == 0x29 || c == 0x3C || c == 0x3E || c == 0x5B || c == 0x5D || c == 0x7B || c
        == 0x7D || c == 0x2F || c == 0x25
}

/// Whether a byte is one that names, numbers and keywords are made of.
pub fn regular(c: u8) -> (r: bool)
    ensures
        r == is_regular(c),
{
    !space(c) && !delimiter(c)
}

/// Where a run of regular bytes that begins at `i` ends.
pub open spec fn run_end(b: Seq<u8>, i: int) -> int
    decreases b.len() - i,
{
    if i < b.len() && is_regular(b[i]) {
        run_end(b, i + 1)
    } else {
        i
    }
}

/// The run ends where it begins or after, and holds nothing but regular bytes.
pub proof fn lemma_run_end(b: Seq<u8>, i: int)
    requires
        i <= b.len(),
    ensures
        i <= run_end(b, i) <= b.len(),
        i < b.len() && is_regular(b[i]) ==> i < run_end(b, i),
    decreases b.len() - i,
{
    if i < b.len() && is_regular(b[i]) {
        lemma_run_end(b, i + 1);
    }
}

/// Find the end of a run of regular bytes.
pub fn skip_run(b: &[u8], from: usize) -> (r: usize)
    requires
        from <= b@.len(),
    ensures
        r == run_end(b@, from as int),
        from <= r <= b@.len(),
{
    let mut i: usize = from;
    while i < b.len() && !space(b[i]) && !delimiter(b[i])
        invariant
            from <= i <= b@.len(),
            run_end(b@, from as int) == run_end(b@, i as int),
        decreases b@.len() - i,
    {
        i += 1;
    }
    i
}

/// Where a literal string ends that is open `depth` times before `i`.
pub open spec fn string_end(b: Seq<u8>, i: int, depth: int) -> Option<int>
    decreases b.len() - i,
{
    if i >= b.len() {
        None
    } else if b[i] == 0x5C {
        if i + 1 < b.len() {
            string_end(b, i + 2, depth)
        } else {
            None
        }
    } else if b[i] == 0x28 {
        string_end(b, i + 1, depth + 1)
    } else if b[i] == 0x29 {
        if depth <= 1 {
            Some(i + 1)
        } else {
            string_end(b, i + 1, depth - 1)
        }
    } else {
        string_end(b, i + 1, depth)
    }
}

/// Where a hexadecimal string ends that is open before `i`.
pub open spec fn hex_end(b: Seq<u8>, i: int) -> Option<int>
    decreases b.len() - i,
{
    if i >= b.len() {
        None
    } else if b[i] == 0x3E {
        Some(i + 1)
    } else {
        hex_end(b, i + 1)
    }
}

/// Where a comment ends that is open before `i`: after the end of its line.
pub open spec fn comment_end(b: Seq<u8>, i: int) -> Option<int>
    decreases b.len() - i,
{
    if i >= b.len() {
        None
    } else if b[i] == 0x0A || b[i] == 0x0D {
        Some(i + 1)
    } else {
        comment_end(b, i + 1)
    }
}

/// Where a string, array or dictionary ends that begins at `i`, or that is open
/// `depth` times before `i`; `None` where no end is found.
pub open spec fn group_end(b: Seq<u8>, i: int, depth: int) -> Option<int>
    decreases b.len() - i,
{
    if i < 0 || i >= b.len() {
        None
    } else if b[i] == 0x25 {
        match comment_end(b, i + 1) {
            Some(e) => if i < e <= b.len() {
                group_end(b, e, depth)
            } else {
                None
            },
            None => None,
        }
    } else if b[i] == 0x28 {
        match string_end(b, i + 1, 1) {
            Some(e) => if depth <= 0 {
                Some(e)
            } else if i < e <= b.len() {
                group_end(b, e, depth)
            } else {
                None
            },
            None => None,
        }
    } else if b[i] == 0x5B {
        group_end(b, i + 1, depth + 1)
    } else if b[i] == 0x5D {
        if depth <= 1 {
            Some(i + 1)
        } else {
            group_end(b, i + 1, depth - 1)
        }
    } else if b[i] == 0x3C && i + 1 < b.len() && b[i + 1] == 0x3C {
        group_end(b, i + 2, depth + 1)
    } else if b[i] == 0x3C {
        match hex_end(b, i + 1) {
            Some(e) => if depth <= 0 {
                Some(e)
            } else if i < e <= b.len() {
                group_end(b, e, depth)
            } else {
                None
            },
            None => None,
        }
    } else if b[i] == 0x3E {
        if i + 1 < b.len() && b[i + 1] == 0x3E {
            if depth <= 1 {
                Some(i + 2)
            } else {
                group_end(b, i + 2, depth - 1)
            }
        } else {
            None
        }
    } else {
        group_end(b, i + 1, depth)
    }
}

/// Find the end of a literal string.
pub fn find_string_end(b: &[u8], from: usize) -> (r: Option<usize>)
    requires
        0 < from <= b@.len(),
    ensures
        match r {
            Some(e) => string_end(b@, from as int, 1) == Some(e as int) && from < e <= b@.len(),
            None => string_end(b@, from as int, 1) is None,
        },
{
    let mut i: usize = from;
    let mut depth: usize = 1;
    while i < b.len()
        invariant
            0 < from <= i <= b@.len(),
            1 <= depth <= 1 + i - from,
            string_end(b@, from as int, 1) == string_end(b@, i as int, depth as int),
        decreases b@.len() - i,
    {
        if b[i] == 0x5C {
            if b.len() - i < 2 {
                return None;
            }
            i += 1;
        } else if b[i] == 0x28 {
            depth += 1;
        } else if b[i] == 0x29 {
            if depth == 1 {
                return Some(i + 1);
            }
            depth -= 1;
        }
        i += 1;
    }
    None
}

/// Find the end of a hexadecimal string.
pub fn find_hex_end(b: &[u8], from: usize) -> (r: Option<usize>)
    requires
        from <= b@.len(),
    ensures
        match r {
            Some(e) => hex_end(b@, from as int) == Some(e as int) && from < e <= b@.len(),
            None => hex_end(b@, from as int) is None,
        },
{
    let mut i: usize = from;
    while i < b.len()
        invariant
            from <= i <= b@.len(),
            hex_end(b@, from as int) == hex_end(b@, i as int),
        decreases b@.len() - i,
    {
        if b[i] == 0x3E {
            return Some(i + 1);
        }
        i += 1;
    }
    None
}

/// Find the end of a comment.
pub fn find_comment_end(b: &[u8], from: usize) -> (r: Option<usize>)
    requires
        from <= b@.len(),
    ensures
        match r {
            Some(e) => comment_end(b@, from as int) == Some(e as int) && from < e <= b@.len(),
            None => comment_end(b@, from as int) is None,
        },
{
    let mut i: usize = from;
    while i < b.len()
        invariant
            from <= i <= b@.len(),
            comment_end(b@, from as int) == comment_end(b@, i as int),
        decreases b@.len() - i,
    {
        if b[i] == 0x0A || b[i] == 0x0D {
            return Some(i + 1);
        }
        i += 1;
    }
    None
}

/// Find the end of a string, array or dictionary.
pub fn find_group_end(b: &[u8], from: usize) -> (r: Option<usize>)
    requires
        from < b@.len(),
        b@[from as int] == 0x28 || b@[from as int] == 0x5B || b@[from as int] == 0x3C,
    ensures
        match r {
            Some(e) => group_end(b@, from as int, 0) == Some(e as int) && from < e <= b@.len(),
            None => group_end(b@, from as int, 0) is None,
        },
{
    let mut i: usize = from;
    let mut depth: usize = 0;
    while i < b.len()
        invariant
            from <= i <= b@.len(),
            depth <= i - from,
            group_end(b@, from as int, 0) == group_end(b@, i as int, depth as int),
        decreases b@.len() - i,
    {
        let c: u8 = b[i];
        if c == 0x25 {
            match find_comment_end(b, i + 1) {
                Some(e) => {
                    i = e;
                },
                None => {
                    return None;
                },
            }
        } else if c == 0x28 {
            match find_string_end(b, i + 1) {
                Some(e) => {
                    if depth == 0 {
                        return Some(e);
                    }
                    i = e;
                },
                None => {
                    return None;
                },
            }
        } else if c == 0x5B {
            depth += 1;
            i += 1;
        } else if c == 0x5D {
            if depth <= 1 {
                return Some(i + 1);
            }
            depth -= 1;
            i += 1;
        } else if c == 0x3C && b.len() - i > 1 && b[i + 1] == 0x3C {
            depth += 1;
            i += 2;
        } else if c == 0x3C {
            match find_hex_end(b, i + 1) {
                Some(e) => {
                    if depth == 0 {
                        return Some(e);
                    }
                    i = e;
                },
                None => {
                    return None;
                },
            }
        } else if c == 0x3E {
            if b.len() - i > 1 && b[i + 1] == 0x3E {
                if depth <= 1 {
                    return Some(i + 2);
                }
                depth -= 1;
                i += 2;
            } else {
                return None;
            }
        } else {
            i += 1;
        }
    }
    None
}

} // verus!
