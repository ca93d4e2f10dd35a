//! Signature derivation and row hashing: the tamper-detection scheme.
//!
//! A per-ledger signature salts a SHA-256 digest over a row's cells, each
//! cell terminated by a zero byte so that cell boundaries cannot be forged
//! by re-splitting the concatenation.

use vstd::prelude::*;
use vstd::string::*;
use vstd::utf8::encode_utf8;

use crate::numtext::{bytes_to_hex, hex_of_bytes};
use crate::outside::{b64_of, base64_encode, sha256_digest, sha256_of};
use crate::textutil::{is_blank, spec_blank};

verus! {

/// The characters of each string in a sequence.
pub open spec fn strings_view(s: Seq<String>) -> Seq<Seq<char>> {
    Seq::new(s.len(), |i: int| s[i]@)
}

/// The signature derived from a name and an optional password:
/// base64 of the name, or of "name:password" when a password is given.
pub open spec fn spec_signature(name: Seq<char>, password: Option<Seq<char>>) -> Seq<char> {
    match password {
        Some(pw) => {
            if pw.len() > 0 {
                b64_of(encode_utf8(name + seq![':'] + pw))
            } else {
                b64_of(encode_utf8(name))
            }
        },
        None => b64_of(encode_utf8(name)),
    }
}

/// Derives the per-ledger signature. Succeeds exactly when the name is not
/// blank; an empty or missing password is ignored.
pub fn generate_signature(name: &str, password: Option<&str>) -> (r: Result<String, String>)
    ensures
        r is Ok <==> !spec_blank(name@),
        r matches Ok(s) ==> s@ == spec_signature(
            name@,
            match password {
                Some(pw) => Some(pw@),
                None => None,
            },
        ),
{
    if is_blank(name) {
        return Err("Name must not be empty".to_owned());
    }
    match password {
        Some(pw) if !pw.is_empty() => {
            let mut combined = String::new();
            combined.append(name);
            proof {
                reveal_strlit(":");
            }
            combined.append(":");
            combined.append(pw);
            proof {
                assert(combined@ =~= name@ + seq![':'] + pw@);
            }
            Ok(base64_encode(combined.as_str().as_bytes()))
        },
        _ => Ok(base64_encode(name.as_bytes())),
    }
}

/// The byte string that a run of cells feeds the digest: each cell's UTF-8
/// bytes, each terminated by one zero byte.
pub open spec fn values_bytes(values: Seq<Seq<char>>) -> Seq<u8>
    decreases values.len(),
{
    if values.len() == 0 {
        Seq::empty()
    } else {
        values_bytes(values.drop_last()) + encode_utf8(values.last()) + seq![0u8]
    }
}

/// What the row hash digests: the terminated cells, then the signature.
pub open spec fn row_digest_input(values: Seq<Seq<char>>, signature: Seq<char>) -> Seq<u8> {
    values_bytes(values) + encode_utf8(signature)
}

/// The row hash: the SHA-256 digest over the cells and the signature,
/// written in lower-case hex. A pure function of the cells and the
/// signature alone.
pub open spec fn spec_hash_row(values: Seq<Seq<char>>, signature: Seq<char>) -> Seq<char> {
    hex_of_bytes(sha256_of(row_digest_input(values, signature)))
}

/// Computes the row hash over the given cells, salted by the signature:
/// sixty-four hex characters. The cells must exclude any stored hash
/// column.
pub fn hash_row(values: &[String], signature: &str) -> (r: String)
    ensures
        r@ == spec_hash_row(strings_view(values@), signature@),
        r@.len() == 64,
{
    let ghost vv = strings_view(values@);
    let n = values.len();
    let mut msg: Vec<u8> = Vec::new();
    let mut i: usize = 0;
    proof {
        assert(vv.take(0) =~= Seq::<Seq<char>>::empty());
        assert(msg@ =~= values_bytes(vv.take(0)));
    }
    while i < n
        invariant
            i <= n,
            n == values@.len(),
            vv == strings_view(values@),
            msg@ == values_bytes(vv.take(i as int)),
        decreases n - i,
    {
        let ghost before = msg@;
        msg.extend_from_slice(values[i].as_str().as_bytes());
        proof {
            assert(msg@ =~= before + encode_utf8(vv[i as int]));
        }
        msg.push(0u8);
        proof {
            assert(vv.take(i + 1).drop_last() =~= vv.take(i as int));
            assert(vv.take(i + 1).last() == vv[i as int]);
            assert(msg@ =~= values_bytes(vv.take(i + 1)));
        }
        i += 1;
    }
    msg.extend_from_slice(signature.as_bytes());
    proof {
        assert(vv.take(n as int) =~= vv);
        assert(msg@ =~= row_digest_input(vv, signature@));
    }
    let digest = sha256_digest(msg.as_slice());
    proof {
        crate::numtext::lemma_hex_of_bytes_len(digest@);
    }
    bytes_to_hex(&digest)
}

} // verus!
