//! The observation model: one immutable record of a detected beacon.
//!
//! An observation names the beacon (its address), the received signal
//! strength in dBm, the optional manufacturer payload it advertised, its
//! advertised name (possibly empty), and the instant of discovery as
//! RFC 3339 text.

use vstd::prelude::*;

verus! {

use crate::clock::{rfc3339_from_instant, rfc3339_of, rfc3339_representable};
use vstd::utf8::encode_utf8;

/// The mathematical value of a [`BleInfo`].
#[verifier::ext_equal]
pub struct BleInfoView {
    pub address: Seq<char>,
    pub rssi: int,
    pub manufacture_id: Option<Seq<u8>>,
    pub name: Seq<char>,
    pub time: Seq<char>,
}

/// Whether the signal strength of a record value fits the machine
/// representation observations carry.
pub open spec fn rssi_in_range(o: BleInfoView) -> bool {
    i32::MIN <= o.rssi <= i32::MAX
}

/// Every observation carries a representable signal strength: the
/// entries of any snapshot meet the decoder's completeness premise.
pub proof fn lemma_rssi_in_range(o: BleInfo)
    ensures
        rssi_in_range(o@),
{
}

/// The contents of an optional manufacturer payload.
pub open spec fn payload_view(p: Option<Vec<u8>>) -> Option<Seq<u8>> {
    match p {
        Some(v) => Some(v@),
        None => None,
    }
}

/// One detected beacon at one instant. Immutable once constructed.
pub struct BleInfo {
    address: String,
    rssi: i32,
    manufacture_id: Option<Vec<u8>>,
    name: String,
    time: String,
}

impl View for BleInfo {
    type V = BleInfoView;

    closed spec fn view(&self) -> BleInfoView {
        BleInfoView {
            address: self.address@,
            rssi: self.rssi as int,
            manufacture_id: match self.manufacture_id {
                Some(v) => Some(v@),
                None => None,
            },
            name: self.name@,
            time: self.time@,
        }
    }
}

impl BleInfo {
    pub fn new(
        address: String,
        rssi: i32,
        manufacture_id: Option<Vec<u8>>,
        name: String,
        time: String,
    ) -> (o: BleInfo)
        ensures
            o@ == (BleInfoView {
                address: address@,
                rssi: rssi as int,
                manufacture_id: payload_view(manufacture_id),
                name: name@,
                time: time@,
            }),
    {
        BleInfo { address, rssi, manufacture_id, name, time }
    }

    /// Constructs the observation of a beacon discovered at the given
    /// instant of the synchronized clock: `Some` exactly when the
    /// instant has an RFC 3339 rendering, which every instant a real
    /// clock hands over does.
    pub fn observed_at(
        address: String,
        rssi: i32,
        manufacture_id: Option<Vec<u8>>,
        name: String,
        secs: i64,
        nanos: u32,
    ) -> (r: Option<BleInfo>)
        ensures
            r is Some <==> rfc3339_representable(secs as int, nanos as int),
            r matches Some(o) ==> o@ == (BleInfoView {
                address: address@,
                rssi: rssi as int,
                manufacture_id: payload_view(manufacture_id),
                name: name@,
                time: rfc3339_of(secs as int, nanos as int),
            }),
    {
        match rfc3339_from_instant(secs, nanos) {
            Some(time) => Some(BleInfo::new(address, rssi, manufacture_id, name, time)),
            None => None,
        }
    }

    pub fn address(&self) -> (r: &str)
        ensures
            r@ == self@.address,
    {
        self.address.as_str()
    }

    pub fn rssi(&self) -> (r: i32)
        ensures
            r as int == self@.rssi,
    {
        self.rssi
    }

    pub fn manufacture_id(&self) -> (r: &Option<Vec<u8>>)
        ensures
            payload_view(*r) == self@.manufacture_id,
    {
        &self.manufacture_id
    }

    pub fn name(&self) -> (r: &str)
        ensures
            r@ == self@.name,
    {
        self.name.as_str()
    }

    pub fn time(&self) -> (r: &str)
        ensures
            r@ == self@.time,
    {
        self.time.as_str()
    }

    /// The forward-endpoint document for this observation under the
    /// given device identifier.
    pub fn get_json(&self, device_id: &str) -> (r: String)
        ensures
            encode_utf8(r@) == crate::codec::forward_tok(device_id@, self@),
    {
        crate::codec::forward_json(device_id, self)
    }

    /// An independent copy with the same value.
    pub fn duplicate(&self) -> (o: BleInfo)
        ensures
            o@ == self@,
    {
        BleInfo {
            address: self.address.clone(),
            rssi: self.rssi,
            manufacture_id: match &self.manufacture_id {
                Some(v) => Some(clone_bytes(v)),
                None => None,
            },
            name: self.name.clone(),
            time: self.time.clone(),
        }
    }
}

fn clone_bytes(v: &Vec<u8>) -> (r: Vec<u8>)
    ensures
        r@ == v@,
{
    let mut r: Vec<u8> = Vec::new();
    let mut i: usize = 0;
    while i < v.len()
        invariant
            i <= v.len(),
            r@ == v@.subrange(0, i as int),
        decreases v.len() - i,
    {
        r.push(v[i]);
        i = i + 1;
        assert(r@ =~= v@.subrange(0, i as int));
    }
    assert(r@ =~= v@);
    r
}

} // verus!
