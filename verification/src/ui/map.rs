//! The satellite-imagery tile source of the map view.

use vstd::prelude::*;
use vstd::string::StringExecFns;

use crate::time::digit_char;

verus! {

/// The decimal representation of `n`, without leading zeros.
pub open spec fn decimal(n: nat) -> Seq<char>
    decreases n,
{
    if n < 10 {
        seq![digit_char(n as int)]
    } else {
        decimal(n / 10).push(digit_char((n % 10) as int))
    }
}

/// The one-character string of decimal digit `d`.
fn digit_str(d: u32) -> (r: &'static str)
    requires
        d < 10,
    ensures
        r@ == seq![digit_char(d as int)],
{
    match d {
        0 => {
            proof { reveal_strlit("0"); }
            "0"
        },
        1 => {
            proof { reveal_strlit("1"); }
            "1"
        },
        2 => {
            proof { reveal_strlit("2"); }
            "2"
        },
        3 => {
            proof { reveal_strlit("3"); }
            "3"
        },
        4 => {
            proof { reveal_strlit("4"); }
            "4"
        },
        5 => {
            proof { reveal_strlit("5"); }
            "5"
        },
        6 => {
            proof { reveal_strlit("6"); }
            "6"
        },
        7 => {
            proof { reveal_strlit("7"); }
            "7"
        },
        8 => {
            proof { reveal_strlit("8"); }
            "8"
        },
        _ => {
            proof { reveal_strlit("9"); }
            "9"
        },
    }
}

/// `n` written in decimal, without sign or leading zeros.
fn decimal_string(n: u32) -> (s: String)
    ensures
        s@ == decimal(n as nat),
    decreases n,
{
    if n < 10 {
        String::from_str(digit_str(n))
    } else {
        let mut s = decimal_string(n / 10);
        s.append(digit_str(n % 10));
        s
    }
}

/// The Esri World Imagery tile service.
pub struct EsriSatellite;

/// The address of the tile service, up to the tile coordinates.
pub open spec fn esri_tile_base() -> Seq<char> {
    "https://server.arcgisonline.com/ArcGIS/rest/services/World_Imagery/MapServer/tile/"@
}

impl EsriSatellite {
    /// The address of tile (`x`, `y`) at zoom level `zoom`: the service
    /// address followed by zoom, row and column, separated by slashes.
    pub fn tile_url(&self, zoom: u8, x: u32, y: u32) -> (url: String)
        ensures
            url@ == esri_tile_base() + decimal(zoom as nat) + "/"@ + decimal(y as nat) + "/"@
                + decimal(x as nat),
    {
        let mut url = String::from_str(
            "https://server.arcgisonline.com/ArcGIS/rest/services/World_Imagery/MapServer/tile/",
        );
        let z = decimal_string(zoom as u32);
        url.append(z.as_str());
        url.append("/");
        let row = decimal_string(y);
        url.append(row.as_str());
        url.append("/");
        let col = decimal_string(x);
        url.append(col.as_str());
        url
    }

    /// The deepest zoom level the service provides.
    pub fn max_zoom(&self) -> (z: u8)
        ensures
            z == 18,
    {
        18
    }
}

} // verus!
