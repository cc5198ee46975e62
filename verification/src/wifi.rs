//! Network credentials for bring-up.
//!
//! The credentials are fixed configuration handed to the bring-up
//! driver; the driver's station buffers bound the SSID to 32 bytes and
//! the password to 64.

use vstd::prelude::*;

verus! {

use vstd::utf8::encode_utf8;

/// The SSID and password the device associates with.
pub struct WifiSettings {
    pub ssid: &'static str,
    pub password: &'static str,
}

impl WifiSettings {
    pub fn new(ssid: &'static str, password: &'static str) -> (s: Self)
        ensures
            s.ssid@ == ssid@,
            s.password@ == password@,
    {
        WifiSettings { ssid, password }
    }

    /// Whether the credentials fit the driver's station buffers: at
    /// most 32 bytes of SSID and 64 of password. Credentials that do
    /// not fit are a configuration error, caught before bring-up.
    pub fn fits_driver_limits(&self) -> (b: bool)
        ensures
            b == (encode_utf8(self.ssid@).len() <= 32 && encode_utf8(self.password@).len()
                <= 64),
    {
        let a = self.ssid.as_bytes().len();
        let b = self.password.as_bytes().len();
        a <= 32 && b <= 64
    }
}

} // verus!
