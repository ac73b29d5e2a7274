//! The signed payload of a token and its canonical JSON rendering.
//!
//! A claims object is always written in one fixed shape,
//! `{"subject_id":"…","subject_email":"…","subject_role":"…","exp":…}`,
//! and the reader recognises exactly that shape; `lemma_parse_obj_json`
//! shows that reading inverts writing.

use vstd::prelude::*;

verus! {

/// The signed payload: who the bearer is and until when the token holds.
#[derive(Debug, Clone, PartialEq, Eq)]
pub struct Claims {
    /// Primary key of the subject in the identity store.
    pub subject_id: String,
    /// Secondary lookup key used by business logic.
    pub subject_email: String,
    /// Wire name of the subject's role.
    pub subject_role: String,
    /// Absolute expiry instant, seconds since the epoch.
    pub exp: u64,
}

/// The mathematical content of a [`Claims`] value.
#[verifier::ext_equal]
pub struct ClaimsView {
    pub subject_id: Seq<char>,
    pub subject_email: Seq<char>,
    pub subject_role: Seq<char>,
    pub exp: u64,
}

impl View for Claims {
    type V = ClaimsView;

    open spec fn view(&self) -> ClaimsView {
        ClaimsView {
            subject_id: self.subject_id@,
            subject_email: self.subject_email@,
            subject_role: self.subject_role@,
            exp: self.exp,
        }
    }
}

// The fixed pieces of the canonical object, as UTF-8 bytes.
/// `{"subject_id":"`
pub open spec fn obj_head() -> Seq<u8> {
    seq![123u8, 34u8, 115u8, 117u8, 98u8, 106u8, 101u8, 99u8, 116u8, 95u8, 105u8, 100u8, 34u8, 58u8, 34u8]
}

/// `,"subject_email":"`
pub open spec fn sep_email() -> Seq<u8> {
    seq![44u8, 34u8, 115u8, 117u8, 98u8, 106u8, 101u8, 99u8, 116u8, 95u8, 101u8, 109u8, 97u8, 105u8, 108u8, 34u8, 58u8, 34u8]
}

/// `,"subject_role":"`
pub open spec fn sep_role() -> Seq<u8> {
    seq![44u8, 34u8, 115u8, 117u8, 98u8, 106u8, 101u8, 99u8, 116u8, 95u8, 114u8, 111u8, 108u8, 101u8, 34u8, 58u8, 34u8]
}

/// `,"exp":`
pub open spec fn sep_exp() -> Seq<u8> {
    seq![44u8, 34u8, 101u8, 120u8, 112u8, 34u8, 58u8]
}

/// The canonical object over raw field bytes.
pub open spec fn spec_obj_json(idb: Seq<u8>, emb: Seq<u8>, rob: Seq<u8>, exp: u64) -> Seq<u8> {
    obj_head() + crate::jsontext::spec_escape(idb) + seq![34u8] + sep_email()
        + crate::jsontext::spec_escape(emb) + seq![34u8] + sep_role()
        + crate::jsontext::spec_escape(rob) + seq![34u8] + sep_exp()
        + crate::jsontext::spec_dec_digits(exp as nat) + seq![125u8]
}

/// The canonical JSON bytes of a claims value.
pub open spec fn spec_claims_json(c: ClaimsView) -> Seq<u8> {
    spec_obj_json(
        vstd::utf8::encode_utf8(c.subject_id),
        vstd::utf8::encode_utf8(c.subject_email),
        vstd::utf8::encode_utf8(c.subject_role),
        c.exp,
    )
}

/// Reads the canonical object back into its raw field bytes; `None` on
/// anything that is not the canonical shape.
pub open spec fn spec_parse_claims(t: Seq<u8>) -> Option<(Seq<u8>, Seq<u8>, Seq<u8>, u64)> {
    match crate::jsontext::spec_expect(t, obj_head()) {
        None => None,
        Some(t1) => match crate::jsontext::spec_scan_string(t1) {
            None => None,
            Some((idb, t2)) => match crate::jsontext::spec_expect(t2, sep_email()) {
                None => None,
                Some(t3) => match crate::jsontext::spec_scan_string(t3) {
                    None => None,
                    Some((emb, t4)) => match crate::jsontext::spec_expect(t4, sep_role()) {
                        None => None,
                        Some(t5) => match crate::jsontext::spec_scan_string(t5) {
                            None => None,
                            Some((rob, t6)) => match crate::jsontext::spec_expect(t6, sep_exp()) {
                                None => None,
                                Some(t7) => match crate::jsontext::spec_scan_u64(t7) {
                                    None => None,
                                    Some((exp, t8)) => if t8 == seq![125u8] {
                                        Some((idb, emb, rob, exp))
                                    } else {
                                        None
                                    },
                                },
                            },
                        },
                    },
                },
            },
        },
    }
}

/// Reading the canonical object gives back exactly the fields it was
/// written from.
#[verifier::rlimit(60)]
pub proof fn lemma_parse_obj_json(idb: Seq<u8>, emb: Seq<u8>, rob: Seq<u8>, exp: u64)
    ensures
        spec_parse_claims(spec_obj_json(idb, emb, rob, exp)) == Some((idb, emb, rob, exp)),
{
    let t = spec_obj_json(idb, emb, rob, exp);
    let tail_exp = crate::jsontext::spec_dec_digits(exp as nat) + seq![125u8];
    let tail4 = sep_exp() + tail_exp;
    let tail_role = crate::jsontext::spec_escape(rob) + seq![34u8] + tail4;
    let tail3 = sep_role() + tail_role;
    let tail_email = crate::jsontext::spec_escape(emb) + seq![34u8] + tail3;
    let tail2 = sep_email() + tail_email;
    let tail_id = crate::jsontext::spec_escape(idb) + seq![34u8] + tail2;
    assert(t =~= obj_head() + tail_id);
    assert((obj_head() + tail_id).take(15) =~= obj_head());
    assert((obj_head() + tail_id).skip(15) =~= tail_id);
    crate::jsontext::lemma_scan_escape(idb, tail2);
    assert(tail2.take(18) =~= sep_email());
    assert(tail2.skip(18) =~= tail_email);
    crate::jsontext::lemma_scan_escape(emb, tail3);
    assert(tail3.take(17) =~= sep_role());
    assert(tail3.skip(17) =~= tail_role);
    crate::jsontext::lemma_scan_escape(rob, tail4);
    assert(tail4.take(7) =~= sep_exp());
    assert(tail4.skip(7) =~= tail_exp);
    crate::jsontext::lemma_scan_dec(exp, seq![125u8]);
}

/// Appends a run of bytes.
pub fn push_bytes(out: &mut Vec<u8>, s: &[u8])
    ensures
        final(out)@ == old(out)@ + s@,
{
    let n = s.len();
    let mut i: usize = 0;
    while i < n
        invariant
            n == s@.len(),
            i <= n,
            out@ == old(out)@ + s@.take(i as int),
        decreases n - i,
    {
        out.push(s[i]);
        proof {
            assert(s@.take(i + 1) =~= s@.take(i as int).push(s@[i as int]));
        }
        i += 1;
    }
    proof {
        assert(s@.take(n as int) =~= s@);
    }
}

/// Writes the canonical JSON bytes of a claims value.
pub fn claims_json_bytes(c: &Claims) -> (r: Vec<u8>)
    ensures
        r@ == spec_claims_json(c@),
{
    let mut out: Vec<u8> = Vec::new();
    let head: Vec<u8> = vec![123u8, 34u8, 115u8, 117u8, 98u8, 106u8, 101u8, 99u8, 116u8, 95u8, 105u8, 100u8, 34u8, 58u8, 34u8];
    let semail: Vec<u8> = vec![44u8, 34u8, 115u8, 117u8, 98u8, 106u8, 101u8, 99u8, 116u8, 95u8, 101u8, 109u8, 97u8, 105u8, 108u8, 34u8, 58u8, 34u8];
    let srole: Vec<u8> = vec![44u8, 34u8, 115u8, 117u8, 98u8, 106u8, 101u8, 99u8, 116u8, 95u8, 114u8, 111u8, 108u8, 101u8, 34u8, 58u8, 34u8];
    let sexp: Vec<u8> = vec![44u8, 34u8, 101u8, 120u8, 112u8, 34u8, 58u8];
    proof {
        assert(head@ =~= obj_head());
        assert(semail@ =~= sep_email());
        assert(srole@ =~= sep_role());
        assert(sexp@ =~= sep_exp());
    }
    push_bytes(&mut out, head.as_slice());
    crate::jsontext::push_escaped(&mut out, c.subject_id.as_str().as_bytes());
    out.push(34);
    push_bytes(&mut out, semail.as_slice());
    crate::jsontext::push_escaped(&mut out, c.subject_email.as_str().as_bytes());
    out.push(34);
    push_bytes(&mut out, srole.as_slice());
    crate::jsontext::push_escaped(&mut out, c.subject_role.as_str().as_bytes());
    out.push(34);
    push_bytes(&mut out, sexp.as_slice());
    crate::jsontext::push_dec(&mut out, c.exp);
    out.push(125);
    proof {
        assert(out@ =~= spec_claims_json(c@));
    }
    out
}

/// Reads the canonical object; returns the raw bytes of the three string
/// fields and the expiry.
pub fn parse_claims_bytes(t: &[u8]) -> (r: Option<(Vec<u8>, Vec<u8>, Vec<u8>, u64)>)
    ensures
        match r {
            Some(p) => spec_parse_claims(t@) == Some((p.0@, p.1@, p.2@, p.3)),
            None => spec_parse_claims(t@) is None,
        },
{
    let head: Vec<u8> = vec![123u8, 34u8, 115u8, 117u8, 98u8, 106u8, 101u8, 99u8, 116u8, 95u8, 105u8, 100u8, 34u8, 58u8, 34u8];
    let semail: Vec<u8> = vec![44u8, 34u8, 115u8, 117u8, 98u8, 106u8, 101u8, 99u8, 116u8, 95u8, 101u8, 109u8, 97u8, 105u8, 108u8, 34u8, 58u8, 34u8];
    let srole: Vec<u8> = vec![44u8, 34u8, 115u8, 117u8, 98u8, 106u8, 101u8, 99u8, 116u8, 95u8, 114u8, 111u8, 108u8, 101u8, 34u8, 58u8, 34u8];
    let sexp: Vec<u8> = vec![44u8, 34u8, 101u8, 120u8, 112u8, 34u8, 58u8];
    proof {
        assert(head@ =~= obj_head());
        assert(semail@ =~= sep_email());
        assert(srole@ =~= sep_role());
        assert(sexp@ =~= sep_exp());
        assert(t@.skip(0) =~= t@);
    }
    let i1 = match crate::jsontext::expect_bytes(t, 0, head.as_slice()) {
        Some(j) => j,
        None => {
            return None;
        },
    };
    let (idb, i2) = match crate::jsontext::scan_string(t, i1) {
        Some(p) => p,
        None => {
            return None;
        },
    };
    let i3 = match crate::jsontext::expect_bytes(t, i2, semail.as_slice()) {
        Some(j) => j,
        None => {
            return None;
        },
    };
    let (emb, i4) = match crate::jsontext::scan_string(t, i3) {
        Some(p) => p,
        None => {
            return None;
        },
    };
    let i5 = match crate::jsontext::expect_bytes(t, i4, srole.as_slice()) {
        Some(j) => j,
        None => {
            return None;
        },
    };
    let (rob, i6) = match crate::jsontext::scan_string(t, i5) {
        Some(p) => p,
        None => {
            return None;
        },
    };
    let i7 = match crate::jsontext::expect_bytes(t, i6, sexp.as_slice()) {
        Some(j) => j,
        None => {
            return None;
        },
    };
    let (exp, i8) = match crate::jsontext::scan_u64(t, i7) {
        Some(p) => p,
        None => {
            return None;
        },
    };
    if t.len() - i8 == 1 && t[i8] == 125 {
        proof {
            assert(t@.skip(i8 as int) =~= seq![125u8]);
        }
        Some((idb, emb, rob, exp))
    } else {
        proof {
            let rest = t@.skip(i8 as int);
            if rest == seq![125u8] {
                assert(rest.len() == 1);
                assert(rest[0] == 125);
                assert(t@[i8 as int] == 125);
                assert(false);
            }
        }
        None
    }
}

} // verus!
