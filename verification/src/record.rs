//! The on-disk shape of a deployment record: a flat JSON object with
//! exactly four string-valued fields, three of them nullable.
//!
//! The fields the deployment path produces — hex texts and a plain network
//! label — need no escaping; the rendering is exact for any field content
//! free of quotes, backslashes and control characters.

use vstd::prelude::*;
use crate::deploy::DeploymentRecord;
use crate::abi::ascii_bytes;
use crate::bytes::{lit, push_bytes};

verus! {

/// A quoted JSON string, or `null` for an absent field.
pub open spec fn opt_text(o: Option<Vec<u8>>) -> Seq<u8> {
    match o {
        Some(v) => seq![34u8] + v@ + seq![34u8],
        None => lit("null"@),
    }
}

/// The record's JSON text: the four fields, in a fixed order.
pub open spec fn record_json(rec: DeploymentRecord) -> Seq<u8> {
    lit("{\"contract_address\":"@) + opt_text(rec.contract_address) + lit(
        ",\"deployer_address\":"@,
    ) + opt_text(rec.deployer_address) + lit(",\"network\":\""@) + rec.network@ + lit(
        "\",\"deployment_tx\":"@,
    ) + opt_text(rec.deployment_tx) + lit("}"@)
}

/// Appends a field value as a quoted string, or `null` when absent.
fn push_opt(out: &mut Vec<u8>, o: &Option<Vec<u8>>)
    ensures
        final(out)@ == old(out)@ + opt_text(*o),
{
    match o {
        Some(v) => {
            out.push(34u8);
            push_bytes(out, v);
            out.push(34u8);
            proof {
                assert(out@ =~= old(out)@ + (seq![34u8] + v@ + seq![34u8]));
            }
        },
        None => {
            let t = ascii_bytes("null");
            push_bytes(out, &t);
        },
    }
}

/// Renders a deployment record as its JSON text.
pub fn render_record(rec: &DeploymentRecord) -> (r: Vec<u8>)
    ensures
        r@ == record_json(*rec),
{
    let mut out: Vec<u8> = Vec::new();
    let t1 = ascii_bytes("{\"contract_address\":");
    push_bytes(&mut out, &t1);
    push_opt(&mut out, &rec.contract_address);
    let t2 = ascii_bytes(",\"deployer_address\":");
    push_bytes(&mut out, &t2);
    push_opt(&mut out, &rec.deployer_address);
    let t3 = ascii_bytes(",\"network\":\"");
    push_bytes(&mut out, &t3);
    push_bytes(&mut out, &rec.network);
    let t4 = ascii_bytes("\",\"deployment_tx\":");
    push_bytes(&mut out, &t4);
    push_opt(&mut out, &rec.deployment_tx);
    let t5 = ascii_bytes("}");
    push_bytes(&mut out, &t5);
    proof {
        assert(out@ =~= record_json(*rec));
    }
    out
}

} // verus!
