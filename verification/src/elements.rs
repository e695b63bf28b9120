//! Chemical elements of semiconductor materials, metals of the alloy model,
//! and the kinds of field of the particle model.
use vstd::prelude::*;

verus! {

#[derive(Debug, Clone, Copy, PartialEq, Eq, Structural)]
pub enum Element {
    // Group 14: semiconductors.
    Carbon,
    Silicon,
    Germanium,
    // Group 13: acceptors (p-type dopants).
    Boron,
    Aluminum,
    Gallium,
    Indium,
    // Group 15: donors (n-type dopants).
    Nitrogen,
    Phosphorus,
    Arsenic,
    Antimony,
    // Group 16: chalcogens.
    Oxygen,
    Sulfur,
    Selenium,
    Tellurium,
    // Group 12.
    Cadmium,
    Zinc,
}

/// Atomic number of each element.
pub open spec fn atomic_number_spec(e: Element) -> u32 {
    match e {
        Element::Boron => 5,
        Element::Carbon => 6,
        Element::Nitrogen => 7,
        Element::Oxygen => 8,
        Element::Aluminum => 13,
        Element::Silicon => 14,
        Element::Phosphorus => 15,
        Element::Sulfur => 16,
        Element::Zinc => 30,
        Element::Gallium => 31,
        Element::Germanium => 32,
        Element::Arsenic => 33,
        Element::Selenium => 34,
        Element::Cadmium => 48,
        Element::Indium => 49,
        Element::Antimony => 51,
        Element::Tellurium => 52,
    }
}

/// Valence electrons of each element (2 for the group 12 metals).
pub open spec fn valence_spec(e: Element) -> u8 {
    match e {
        Element::Boron | Element::Aluminum | Element::Gallium | Element::Indium => 3,
        Element::Carbon | Element::Silicon | Element::Germanium => 4,
        Element::Nitrogen | Element::Phosphorus | Element::Arsenic | Element::Antimony => 5,
        Element::Oxygen | Element::Sulfur | Element::Selenium | Element::Tellurium => 6,
        Element::Zinc | Element::Cadmium => 2,
    }
}

impl Element {
    pub fn atomic_number(&self) -> (r: u32)
        ensures
            r == atomic_number_spec(*self),
    {
        match self {
            Element::Boron => 5,
            Element::Carbon => 6,
            Element::Nitrogen => 7,
            Element::Oxygen => 8,
            Element::Aluminum => 13,
            Element::Silicon => 14,
            Element::Phosphorus => 15,
            Element::Sulfur => 16,
            Element::Zinc => 30,
            Element::Gallium => 31,
            Element::Germanium => 32,
            Element::Arsenic => 33,
            Element::Selenium => 34,
            Element::Cadmium => 48,
            Element::Indium => 49,
            Element::Antimony => 51,
            Element::Tellurium => 52,
        }
    }

    pub fn valence_electrons(&self) -> (r: u8)
        ensures
            r == valence_spec(*self),
    {
        match self {
            Element::Boron | Element::Aluminum | Element::Gallium | Element::Indium => 3,
            Element::Carbon | Element::Silicon | Element::Germanium => 4,
            Element::Nitrogen | Element::Phosphorus | Element::Arsenic | Element::Antimony => 5,
            Element::Oxygen | Element::Sulfur | Element::Selenium | Element::Tellurium => 6,
            Element::Zinc | Element::Cadmium => 2,
        }
    }
}

/// An element is identified by its atomic number.
pub proof fn lemma_atomic_number_identifies(a: Element, b: Element)
    ensures
        atomic_number_spec(a) == atomic_number_spec(b) <==> a == b,
{
}

/// Dopants: the group 13 acceptors have one valence electron fewer than the
/// group 14 semiconductors, the group 15 donors one more; and within each
/// group, the valence count does not depend on the element.
pub proof fn lemma_dopant_valence(e: Element)
    ensures
        (e == Element::Carbon || e == Element::Silicon || e == Element::Germanium) ==> valence_spec(e)
            == 4,
        (e == Element::Boron || e == Element::Aluminum || e == Element::Gallium || e == Element::Indium)
            ==> valence_spec(e) == 4 - 1,
        (e == Element::Nitrogen || e == Element::Phosphorus || e == Element::Arsenic || e
            == Element::Antimony) ==> valence_spec(e) == 4 + 1,
{
}

#[derive(Debug, Clone, Copy, PartialEq, Eq, Structural)]
pub enum MetalType {
    Titanium,
    Aluminum,
    Iron,
    Tin,
    Vanadium,
}

/// The fundamental fields of the particle model.
#[derive(Debug, Clone, Copy, PartialEq, Eq, Structural)]
pub enum FieldType {
    // Gauge bosons.
    Photon,
    Gluon,
    WPlus,
    WMinus,
    ZBoson,
    // Leptons.
    Electron,
    Muon,
    Tau,
    ElectronNeutrino,
    MuonNeutrino,
    TauNeutrino,
    // Quarks.
    Up,
    Down,
    Charm,
    Strange,
    Top,
    Bottom,
    // Quasi-particles of the solid state.
    FreeElectron,
    Hole,
    // Scalar.
    Higgs,
}

} // verus!
