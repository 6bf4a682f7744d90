//! Album art embedded in a file (an ID3 `APIC` frame), turned into a
//! `data:` URL that a browser can show as the song's cover.

use vstd::prelude::*;

use crate::text::push_char;

verus! {

/// The character of the base64 alphabet (`A-Z a-z 0-9 + /`) for `v`.
pub open spec fn b64_char(v: int) -> char {
    if v < 26 {
        (65 + v) as char
    } else if v < 52 {
        (97 + (v - 26)) as char
    } else if v < 62 {
        (48 + (v - 52)) as char
    } else if v == 62 {
        '+'
    } else {
        '/'
    }
}

/// Standard base64 of `s`, with `=` padding: each group of three bytes
/// gives four characters, a final group of two gives three and `=`, a
/// final single byte gives two and `==`.
pub open spec fn base64(s: Seq<u8>) -> Seq<char>
    decreases s.len(),
{
    if s.len() == 0 {
        Seq::empty()
    } else if s.len() == 1 {
        seq![b64_char((s[0] / 4) as int), b64_char((s[0] % 4) * 16), '=', '=']
    } else if s.len() == 2 {
        seq![
            b64_char((s[0] / 4) as int),
            b64_char((s[0] % 4) * 16 + s[1] / 16),
            b64_char((s[1] % 16) * 4),
            '=',
        ]
    } else {
        seq![
            b64_char((s[0] / 4) as int),
            b64_char((s[0] % 4) * 16 + s[1] / 16),
            b64_char((s[1] % 16) * 4 + s[2] / 64),
            b64_char((s[2] % 64) as int),
        ] + base64(s.skip(3))
    }
}

/// The base64 character for `v`.
fn b64_digit(v: u32) -> (r: char)
    requires
        v < 64,
    ensures
        r == b64_char(v as int),
{
    if v < 26 {
        ((65 + v) as u8) as char
    } else if v < 52 {
        ((97 + (v - 26)) as u8) as char
    } else if v < 62 {
        ((48 + (v - 52)) as u8) as char
    } else if v == 62 {
        '+'
    } else {
        '/'
    }
}

/// The `data:` URL of a picture: `data:`, its MIME type, `;base64,` and
/// the base64 of its bytes.
pub open spec fn data_url(mime: Seq<char>, data: Seq<u8>) -> Seq<char> {
    "data:"@ + mime + ";base64,"@ + base64(data)
}

/// Builds the `data:` URL of a picture of type `mime` with bytes `data`.
pub fn picture_url(mime: &str, data: &Vec<u8>) -> (r: String)
    ensures
        r@ == data_url(mime@, data@),
{
    let mut r = String::from_str("data:");
    r.append(mime);
    r.append(";base64,");
    proof {
        reveal_strlit("data:");
        reveal_strlit(";base64,");
    }
    let ghost head = r@;
    let n = data.len();
    let mut i: usize = 0;
    proof {
        assert(data@.skip(0) =~= data@);
    }
    while n - i >= 3
        invariant
            n == data@.len(),
            i <= n,
            head == "data:"@ + mime@ + ";base64,"@,
            head + base64(data@) == r@ + base64(data@.skip(i as int)),
        decreases n - i,
    {
        let b0 = data[i] as u32;
        let b1 = data[i + 1] as u32;
        let b2 = data[i + 2] as u32;
        let ghost t = data@.skip(i as int);
        proof {
            assert(t[0] == data@[i as int] && t[1] == data@[i + 1] && t[2] == data@[i + 2]);
            assert(t.skip(3) =~= data@.skip(i + 3));
        }
        let ghost before = r@;
        push_char(&mut r, b64_digit(b0 / 4));
        push_char(&mut r, b64_digit((b0 % 4) * 16 + b1 / 16));
        push_char(&mut r, b64_digit((b1 % 16) * 4 + b2 / 64));
        push_char(&mut r, b64_digit(b2 % 64));
        proof {
            let q = seq![
                b64_char((t[0] / 4) as int),
                b64_char((t[0] % 4) * 16 + t[1] / 16),
                b64_char((t[1] % 16) * 4 + t[2] / 64),
                b64_char((t[2] % 64) as int),
            ];
            assert(r@ =~= before + q);
            assert(base64(t) == q + base64(t.skip(3)));
            assert(before + (q + base64(t.skip(3))) =~= (before + q) + base64(t.skip(3)));
        }
        i = i + 3;
    }
    let rest = n - i;
    let ghost before = r@;
    let ghost t = data@.skip(i as int);
    if rest == 1 {
        let b0 = data[i] as u32;
        push_char(&mut r, b64_digit(b0 / 4));
        push_char(&mut r, b64_digit((b0 % 4) * 16));
        push_char(&mut r, '=');
        push_char(&mut r, '=');
        proof {
            assert(t[0] == data@[i as int]);
            assert(r@ =~= before + base64(t));
        }
    } else if rest == 2 {
        let b0 = data[i] as u32;
        let b1 = data[i + 1] as u32;
        push_char(&mut r, b64_digit(b0 / 4));
        push_char(&mut r, b64_digit((b0 % 4) * 16 + b1 / 16));
        push_char(&mut r, b64_digit((b1 % 16) * 4));
        push_char(&mut r, '=');
        proof {
            assert(t[0] == data@[i as int] && t[1] == data@[i + 1]);
            assert(r@ =~= before + base64(t));
        }
    } else {
        proof {
            assert(t.len() == 0);
            assert(r@ =~= before + base64(t));
        }
    }
    proof {
        assert(data_url(mime@, data@) =~= head + base64(data@));
    }
    r
}

} // verus!
