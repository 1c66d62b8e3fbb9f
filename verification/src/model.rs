//! PDF color spaces and indirect object references.
use vstd::prelude::*;

verus! {

/// A PDF color space.
#[derive(Debug, Clone, PartialEq, Eq)]
pub struct PDFColorSpace {
    /// Name of the color space (e.g., "DeviceRGB").
    pub name: String,
    /// Number of color components.
    pub ncomponents: usize,
}

impl PDFColorSpace {
    /// Creates a new color space.
    pub fn new(name: &str, ncomponents: usize) -> (r: Self)
        ensures
            r.name@ == name@,
            r.ncomponents == ncomponents,
    {
        PDFColorSpace { name: name.to_owned(), ncomponents }
    }
}

/// A PDF indirect object reference.
#[derive(Debug, Clone, PartialEq, Eq, Structural)]
pub struct PDFObjRef {
    /// Object ID.
    pub objid: u32,
    /// Generation number.
    pub genno: u32,
}

impl PDFObjRef {
    /// Creates a new object reference.
    pub fn new(objid: u32, genno: u32) -> (r: Self)
        ensures
            r.objid == objid,
            r.genno == genno,
    {
        PDFObjRef { objid, genno }
    }
}

fn chars_equal(a: &Vec<char>, b: &str) -> (r: bool)
    ensures
        r == (a@ == b@),
{
    let bc = crate::bidi::text::chars_of_str(b);
    if a.len() != bc.len() {
        return false;
    }
    let mut i: usize = 0;
    while i < a.len()
        invariant
            i <= a.len(),
            a.len() == bc.len(),
            bc@ == b@,
            forall|j: int| 0 <= j < i ==> a@[j] == bc@[j],
        decreases a.len() - i,
    {
        if a[i] != bc[i] {
            assert(a@[i as int] != bc@[i as int]);
            return false;
        }
        i += 1;
    }
    assert(a@ =~= bc@);
    true
}

/// The number of components of each predefined color space.
pub open spec fn predefined_components(name: Seq<char>) -> Option<usize> {
    if name == "DeviceGray"@ {
        Some(1usize)
    } else if name == "CalRGB"@ {
        Some(3usize)
    } else if name == "CalGray"@ {
        Some(1usize)
    } else if name == "Lab"@ {
        Some(3usize)
    } else if name == "DeviceRGB"@ {
        Some(3usize)
    } else if name == "DeviceCMYK"@ {
        Some(4usize)
    } else if name == "Separation"@ {
        Some(1usize)
    } else if name == "Indexed"@ {
        Some(1usize)
    } else if name == "Pattern"@ {
        Some(1usize)
    } else {
        None
    }
}

/// The predefined color space called `name`, if there is one.
pub fn predefined_colorspace(name: &str) -> (r: Option<PDFColorSpace>)
    ensures
        match predefined_components(name@) {
            Some(n) => r is Some && r->0.name@ == name@ && r->0.ncomponents == n,
            None => r is None,
        },
{
    let chars = crate::bidi::text::chars_of_str(name);
    let n: usize = if chars_equal(&chars, "DeviceGray") {
        1
    } else if chars_equal(&chars, "CalRGB") {
        3
    } else if chars_equal(&chars, "CalGray") {
        1
    } else if chars_equal(&chars, "Lab") {
        3
    } else if chars_equal(&chars, "DeviceRGB") {
        3
    } else if chars_equal(&chars, "DeviceCMYK") {
        4
    } else if chars_equal(&chars, "Separation") {
        1
    } else if chars_equal(&chars, "Indexed") {
        1
    } else if chars_equal(&chars, "Pattern") {
        1
    } else {
        return None;
    };
    Some(PDFColorSpace::new(name, n))
}

/// The full color space name of an inline-image abbreviation.
pub open spec fn inline_abbrev_spec(abbrev: Seq<char>) -> Option<Seq<char>> {
    if abbrev == "G"@ {
        Some("DeviceGray"@)
    } else if abbrev == "RGB"@ {
        Some("DeviceRGB"@)
    } else if abbrev == "CMYK"@ {
        Some("DeviceCMYK"@)
    } else {
        None
    }
}

/// Expands an inline-image color space abbreviation.
pub fn inline_colorspace_abbrev(abbrev: &str) -> (r: Option<&'static str>)
    ensures
        match inline_abbrev_spec(abbrev@) {
            Some(full) => r is Some && r->0@ == full,
            None => r is None,
        },
{
    let chars = crate::bidi::text::chars_of_str(abbrev);
    if chars_equal(&chars, "G") {
        Some("DeviceGray")
    } else if chars_equal(&chars, "RGB") {
        Some("DeviceRGB")
    } else if chars_equal(&chars, "CMYK") {
        Some("DeviceCMYK")
    } else {
        None
    }
}

} // verus!
