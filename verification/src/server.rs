//! What a server needs to know before it listens.

use crate::text::{decimal, decimal_string};
use vstd::prelude::*;
use vstd::string::*;

verus! {

/// The address on which a server for `port` listens: every interface, and
/// the port in decimal.
pub open spec fn bind_address_spec(port: u16) -> Seq<char> {
    "0.0.0.0:"@ + decimal(port as nat)
}

/// The address on which a server for `port` listens.
pub fn bind_address(port: u16) -> (address: String)
    ensures
        address@ == bind_address_spec(port),
{
    let mut address = "0.0.0.0:".to_owned();
    let number = decimal_string(port);
    address.append(number.as_str());
    address
}

} // verus!
