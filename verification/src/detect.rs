//! Which dongle answers, and what it is called.

use vstd::prelude::*;

use crate::stock::HostInfo;

verus! {

/// Where a dongle answers, and where an older one does.
pub const DEFAULT_HOST: &'static str = "10.10.10.1";
pub const LEGACY_HOST: &'static str = "192.168.50.2";

pub enum Detected {
    Cpc200 { host: String },
    LiviLink { model: String },
    /// A V821B in stock firmware, reachable through its own access point.
    V821bStock { info: HostInfo },
    Nothing,
}

impl Detected {
    /// What it is called.
    pub open spec fn words(self) -> Seq<char> {
        match self {
            Detected::Cpc200 { host } => "CPC200-CCPA at "@ + host@,
            Detected::LiviLink { model } => model@ + " already running LIVI Link"@,
            Detected::V821bStock { info } => "V821B+AIC8800D80 in stock firmware ("@ + info.name@ + ", appver "@
                + info.sys.appver@ + ")"@,
            Detected::Nothing => "no dongle found"@,
        }
    }

    /// What it is called.
    pub fn label(&self) -> (out: String)
        ensures
            out@ == self.words(),
    {
        match self {
            Detected::Cpc200 { host } => {
                let mut out = "CPC200-CCPA at ".to_owned();
                out.append(host.as_str());
                out
            },
            Detected::LiviLink { model } => {
                let mut out = model.clone();
                out.append(" already running LIVI Link");
                out
            },
            Detected::V821bStock { info } => {
                let mut out = "V821B+AIC8800D80 in stock firmware (".to_owned();
                out.append(info.name.as_str());
                out.append(", appver ");
                out.append(info.sys.appver.as_str());
                out.append(")");
                out
            },
            Detected::Nothing => "no dongle found".to_owned(),
        }
    }
}

/// What was found, by what answered: a running stack first, then the stock page, then a shell at
/// the current address, then one at the old.
pub fn detect(model: Option<String>, stock: Option<HostInfo>, current: bool, legacy: bool) -> (r: Detected)
    ensures
        match r {
            Detected::LiviLink { model: m } => model == Some(m),
            Detected::V821bStock { info } => model is None && stock == Some(info),
            Detected::Cpc200 { host } => model is None && stock is None && (if current {
                host@ == DEFAULT_HOST@
            } else {
                legacy && host@ == LEGACY_HOST@
            }),
            Detected::Nothing => model is None && stock is None && !current && !legacy,
        },
{
    if let Some(m) = model {
        return Detected::LiviLink { model: m };
    }
    if let Some(info) = stock {
        return Detected::V821bStock { info };
    }
    if current {
        return Detected::Cpc200 { host: DEFAULT_HOST.to_owned() };
    }
    if legacy {
        return Detected::Cpc200 { host: LEGACY_HOST.to_owned() };
    }
    Detected::Nothing
}

/// The address to talk to: what the caller names, then whichever address answers, the current one
/// first.
pub fn pick_host(named: Option<String>, current: bool, legacy: bool) -> (out: String)
    ensures
        out@ == (match named {
            Some(h) => h@,
            None => if !current && legacy { LEGACY_HOST@ } else { DEFAULT_HOST@ },
        }),
{
    match named {
        Some(h) => h,
        None => if !current && legacy { LEGACY_HOST.to_owned() } else { DEFAULT_HOST.to_owned() },
    }
}

/// A running stack is found before the stock page, that before a shell, and a shell at the current address
/// before one at the old.
pub proof fn what_is_found_first(model: Option<String>, stock: Option<HostInfo>, current: bool, legacy: bool, r: Detected)
    requires
        call_ensures(detect, (model, stock, current, legacy), r),
    ensures
        r is LiviLink <==> model is Some,
        r is V821bStock <==> model is None && stock is Some,
        r is Cpc200 <==> model is None && stock is None && (current || legacy),
        r is Nothing <==> model is None && stock is None && !current && !legacy,
        r matches Detected::Cpc200 { host } ==> host@ == (if current { "10.10.10.1"@ } else { "192.168.50.2"@ }),
{
}

} // verus!
