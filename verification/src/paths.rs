//! Decimal rendering and the file-name schemes of the on-disk layout.
//!
//! WAL segments are named `{collection}_{seq:09}.wal`; SSTs live at
//! `{root}/{collection}/L{layer}/{seq:06}.sst`. Numbers render in decimal,
//! zero-padded to the scheme's width.

use vstd::prelude::*;

verus! {

/// The decimal digit character for one digit value.
pub open spec fn dec_digit(d: nat) -> char {
    if d == 0 {
        '0'
    } else if d == 1 {
        '1'
    } else if d == 2 {
        '2'
    } else if d == 3 {
        '3'
    } else if d == 4 {
        '4'
    } else if d == 5 {
        '5'
    } else if d == 6 {
        '6'
    } else if d == 7 {
        '7'
    } else if d == 8 {
        '8'
    } else {
        '9'
    }
}

/// The decimal rendering of `n`, most significant digit first.
pub open spec fn dec_str(n: nat) -> Seq<char>
    decreases n,
{
    if n < 10 {
        seq![dec_digit(n)]
    } else {
        dec_str(n / 10).push(dec_digit(n % 10))
    }
}

/// The decimal rendering of `n`, left-padded with zeros to at least
/// `width` characters.
pub open spec fn dec_str_padded(n: nat, width: nat) -> Seq<char> {
    if dec_str(n).len() >= width {
        dec_str(n)
    } else {
        Seq::new((width - dec_str(n).len()) as nat, |i: int| '0') + dec_str(n)
    }
}

fn digit_str(d: u64) -> (r: &'static str)
    requires
        d < 10,
    ensures
        r@ == seq![dec_digit(d as nat)],
{
    proof {
        reveal_strlit("0");
        reveal_strlit("1");
        reveal_strlit("2");
        reveal_strlit("3");
        reveal_strlit("4");
        reveal_strlit("5");
        reveal_strlit("6");
        reveal_strlit("7");
        reveal_strlit("8");
        reveal_strlit("9");
    }
    match d {
        0 => "0",
        1 => "1",
        2 => "2",
        3 => "3",
        4 => "4",
        5 => "5",
        6 => "6",
        7 => "7",
        8 => "8",
        _ => "9",
    }
}

/// Render `n` in decimal.
pub fn u64_to_dec(n: u64) -> (r: String)
    ensures
        r@ == dec_str(n as nat),
    decreases n,
{
    if n < 10 {
        String::from_str(digit_str(n))
    } else {
        let prefix = u64_to_dec(n / 10);
        let r = prefix.concat(digit_str(n % 10));
        proof {
            assert(r@ =~= dec_str(n as nat));
        }
        r
    }
}

/// Render `n` in decimal, zero-padded to at least `width` characters.
pub fn u64_to_dec_padded(n: u64, width: usize) -> (r: String)
    ensures
        r@ == dec_str_padded(n as nat, width as nat),
{
    let digits = u64_to_dec(n);
    let len = digits.as_str().unicode_len();
    if len >= width {
        digits
    } else {
        let mut pad = String::new();
        let mut k: usize = 0;
        while k < width - len
            invariant
                k <= width - len,
                len == dec_str(n as nat).len(),
                len < width,
                pad@ =~= Seq::new(k as nat, |i: int| '0'),
            decreases width - len - k,
        {
            pad.append(digit_str(0));
            proof {
                assert(pad@ =~= Seq::new((k + 1) as nat, |i: int| '0'));
            }
            k = k + 1;
        }
        let r = pad.concat(digits.as_str());
        proof {
            assert(r@ =~= dec_str_padded(n as nat, width as nat));
        }
        r
    }
}

/// The name of WAL segment `seq_no` of collection `name`.
pub open spec fn spec_wal_file_name(name: Seq<char>, seq_no: u64) -> Seq<char> {
    name + "_"@ + dec_str_padded(seq_no as nat, 9) + ".wal"@
}

pub fn wal_file_name(name: &str, seq_no: u64) -> (r: String)
    ensures
        r@ == spec_wal_file_name(name@, seq_no),
{
    let r = String::from_str(name).concat("_").concat(
        u64_to_dec_padded(seq_no, 9).as_str(),
    ).concat(".wal");
    proof {
        assert(r@ =~= spec_wal_file_name(name@, seq_no));
    }
    r
}

/// The path of SST `seq_no` of `collection_name` at `layer`, under `root`.
pub open spec fn spec_sst_file_path(
    root: Seq<char>,
    collection_name: Seq<char>,
    layer: u64,
    seq_no: u64,
) -> Seq<char> {
    root + "/"@ + collection_name + "/L"@ + dec_str(layer as nat) + "/"@ + dec_str_padded(
        seq_no as nat,
        6,
    ) + ".sst"@
}

pub fn sst_file_path(root: &str, collection_name: &str, layer: u64, seq_no: u64) -> (r: String)
    ensures
        r@ == spec_sst_file_path(root@, collection_name@, layer, seq_no),
{
    let r = String::from_str(root).concat("/").concat(collection_name).concat("/L").concat(
        u64_to_dec(layer).as_str(),
    ).concat("/").concat(u64_to_dec_padded(seq_no, 6).as_str()).concat(".sst");
    proof {
        assert(r@ =~= spec_sst_file_path(root@, collection_name@, layer, seq_no));
    }
    r
}

} // verus!
