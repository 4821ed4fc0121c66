//! The relation kinds of the graph and the pairing of each authored kind with
//! the kind that holds its derived inverse.

use vstd::prelude::*;

verus! {

/// Number of set-to-set relation kinds.
pub const SYNSET_REL_COUNT: usize = 23;

/// Number of sense-level relation kinds, as lifted to sense sets.
pub const SENSE_REL_COUNT: usize = 36;

/// A set-to-set relation kind.
#[derive(Debug, Clone, Copy, PartialEq, Eq, Structural)]
pub enum SynsetRel {
    Also,
    Attribute,
    Causes,
    DomainRegion,
    DomainTopic,
    Exemplifies,
    Entails,
    Hypernym,
    InstanceHypernym,
    MeroMember,
    MeroPart,
    MeroSubstance,
    Similar,
    Hyponym,
    IsCausedBy,
    HasDomainRegion,
    HasDomainTopic,
    IsExemplifiedBy,
    IsEntailedBy,
    InstanceHyponym,
    HoloMember,
    HoloPart,
    HoloSubstance,
}

impl SynsetRel {
    /// Position of this kind's list in a relation table.
    pub open spec fn idx(self) -> int {
        match self {
            SynsetRel::Also => 0,
            SynsetRel::Attribute => 1,
            SynsetRel::Causes => 2,
            SynsetRel::DomainRegion => 3,
            SynsetRel::DomainTopic => 4,
            SynsetRel::Exemplifies => 5,
            SynsetRel::Entails => 6,
            SynsetRel::Hypernym => 7,
            SynsetRel::InstanceHypernym => 8,
            SynsetRel::MeroMember => 9,
            SynsetRel::MeroPart => 10,
            SynsetRel::MeroSubstance => 11,
            SynsetRel::Similar => 12,
            SynsetRel::Hyponym => 13,
            SynsetRel::IsCausedBy => 14,
            SynsetRel::HasDomainRegion => 15,
            SynsetRel::HasDomainTopic => 16,
            SynsetRel::IsExemplifiedBy => 17,
            SynsetRel::IsEntailedBy => 18,
            SynsetRel::InstanceHyponym => 19,
            SynsetRel::HoloMember => 20,
            SynsetRel::HoloPart => 21,
            SynsetRel::HoloSubstance => 22,
        }
    }

    pub fn index(&self) -> (r: usize)
        ensures
            r == self.idx(),
            r < SYNSET_REL_COUNT,
    {
        match *self {
            SynsetRel::Also => 0,
            SynsetRel::Attribute => 1,
            SynsetRel::Causes => 2,
            SynsetRel::DomainRegion => 3,
            SynsetRel::DomainTopic => 4,
            SynsetRel::Exemplifies => 5,
            SynsetRel::Entails => 6,
            SynsetRel::Hypernym => 7,
            SynsetRel::InstanceHypernym => 8,
            SynsetRel::MeroMember => 9,
            SynsetRel::MeroPart => 10,
            SynsetRel::MeroSubstance => 11,
            SynsetRel::Similar => 12,
            SynsetRel::Hyponym => 13,
            SynsetRel::IsCausedBy => 14,
            SynsetRel::HasDomainRegion => 15,
            SynsetRel::HasDomainTopic => 16,
            SynsetRel::IsExemplifiedBy => 17,
            SynsetRel::IsEntailedBy => 18,
            SynsetRel::InstanceHyponym => 19,
            SynsetRel::HoloMember => 20,
            SynsetRel::HoloPart => 21,
            SynsetRel::HoloSubstance => 22,
        }
    }

    /// The kind stored at position `i` of a relation table.
    pub open spec fn at(i: int) -> SynsetRel {
        if i == 0 {
            SynsetRel::Also
        } else if i == 1 {
            SynsetRel::Attribute
        } else if i == 2 {
            SynsetRel::Causes
        } else if i == 3 {
            SynsetRel::DomainRegion
        } else if i == 4 {
            SynsetRel::DomainTopic
        } else if i == 5 {
            SynsetRel::Exemplifies
        } else if i == 6 {
            SynsetRel::Entails
        } else if i == 7 {
            SynsetRel::Hypernym
        } else if i == 8 {
            SynsetRel::InstanceHypernym
        } else if i == 9 {
            SynsetRel::MeroMember
        } else if i == 10 {
            SynsetRel::MeroPart
        } else if i == 11 {
            SynsetRel::MeroSubstance
        } else if i == 12 {
            SynsetRel::Similar
        } else if i == 13 {
            SynsetRel::Hyponym
        } else if i == 14 {
            SynsetRel::IsCausedBy
        } else if i == 15 {
            SynsetRel::HasDomainRegion
        } else if i == 16 {
            SynsetRel::HasDomainTopic
        } else if i == 17 {
            SynsetRel::IsExemplifiedBy
        } else if i == 18 {
            SynsetRel::IsEntailedBy
        } else if i == 19 {
            SynsetRel::InstanceHyponym
        } else if i == 20 {
            SynsetRel::HoloMember
        } else if i == 21 {
            SynsetRel::HoloPart
        } else {
            SynsetRel::HoloSubstance
        }
    }

    pub fn from_index(i: usize) -> (r: SynsetRel)
        requires
            i < SYNSET_REL_COUNT,
        ensures
            r == SynsetRel::at(i as int),
            r.idx() == i,
    {
        match i {
            0 => SynsetRel::Also,
            1 => SynsetRel::Attribute,
            2 => SynsetRel::Causes,
            3 => SynsetRel::DomainRegion,
            4 => SynsetRel::DomainTopic,
            5 => SynsetRel::Exemplifies,
            6 => SynsetRel::Entails,
            7 => SynsetRel::Hypernym,
            8 => SynsetRel::InstanceHypernym,
            9 => SynsetRel::MeroMember,
            10 => SynsetRel::MeroPart,
            11 => SynsetRel::MeroSubstance,
            12 => SynsetRel::Similar,
            13 => SynsetRel::Hyponym,
            14 => SynsetRel::IsCausedBy,
            15 => SynsetRel::HasDomainRegion,
            16 => SynsetRel::HasDomainTopic,
            17 => SynsetRel::IsExemplifiedBy,
            18 => SynsetRel::IsEntailedBy,
            19 => SynsetRel::InstanceHyponym,
            20 => SynsetRel::HoloMember,
            21 => SynsetRel::HoloPart,
            _ => SynsetRel::HoloSubstance,
        }
    }

    /// The kind that receives the inverse of an authored kind: `None` for kinds that have no derived inverse.
    pub open spec fn inverse_spec(self) -> Option<SynsetRel> {
        match self {
            SynsetRel::Causes => Some(SynsetRel::IsCausedBy),
            SynsetRel::Exemplifies => Some(SynsetRel::IsExemplifiedBy),
            SynsetRel::Entails => Some(SynsetRel::IsEntailedBy),
            SynsetRel::Hypernym => Some(SynsetRel::Hyponym),
            SynsetRel::InstanceHypernym => Some(SynsetRel::InstanceHyponym),
            SynsetRel::MeroMember => Some(SynsetRel::HoloMember),
            SynsetRel::MeroPart => Some(SynsetRel::HoloPart),
            SynsetRel::MeroSubstance => Some(SynsetRel::HoloSubstance),
            _ => None,
        }
    }

    pub fn inverse(&self) -> (r: Option<SynsetRel>)
        ensures
            r == self.inverse_spec(),
    {
        match *self {
            SynsetRel::Causes => Some(SynsetRel::IsCausedBy),
            SynsetRel::Exemplifies => Some(SynsetRel::IsExemplifiedBy),
            SynsetRel::Entails => Some(SynsetRel::IsEntailedBy),
            SynsetRel::Hypernym => Some(SynsetRel::Hyponym),
            SynsetRel::InstanceHypernym => Some(SynsetRel::InstanceHyponym),
            SynsetRel::MeroMember => Some(SynsetRel::HoloMember),
            SynsetRel::MeroPart => Some(SynsetRel::HoloPart),
            SynsetRel::MeroSubstance => Some(SynsetRel::HoloSubstance),
            _ => None,
        }
    }

    /// Field name of this kind in a sense set record.
    pub open spec fn name_spec(self) -> Seq<char> {
        match self {
            SynsetRel::Also => "also"@,
            SynsetRel::Attribute => "attribute"@,
            SynsetRel::Causes => "causes"@,
            SynsetRel::DomainRegion => "domain_region"@,
            SynsetRel::DomainTopic => "domain_topic"@,
            SynsetRel::Exemplifies => "exemplifies"@,
            SynsetRel::Entails => "entails"@,
            SynsetRel::Hypernym => "hypernym"@,
            SynsetRel::InstanceHypernym => "instance_hypernym"@,
            SynsetRel::MeroMember => "mero_member"@,
            SynsetRel::MeroPart => "mero_part"@,
            SynsetRel::MeroSubstance => "mero_substance"@,
            SynsetRel::Similar => "similar"@,
            SynsetRel::Hyponym => "hyponym"@,
            SynsetRel::IsCausedBy => "is_caused_by"@,
            SynsetRel::HasDomainRegion => "has_domain_region"@,
            SynsetRel::HasDomainTopic => "has_domain_topic"@,
            SynsetRel::IsExemplifiedBy => "is_exemplified_by"@,
            SynsetRel::IsEntailedBy => "is_entailed_by"@,
            SynsetRel::InstanceHyponym => "instance_hyponym"@,
            SynsetRel::HoloMember => "holo_member"@,
            SynsetRel::HoloPart => "holo_part"@,
            SynsetRel::HoloSubstance => "holo_substance"@,
        }
    }

    pub fn name(&self) -> (r: &'static str)
        ensures
            r@ == self.name_spec(),
    {
        match *self {
            SynsetRel::Also => "also",
            SynsetRel::Attribute => "attribute",
            SynsetRel::Causes => "causes",
            SynsetRel::DomainRegion => "domain_region",
            SynsetRel::DomainTopic => "domain_topic",
            SynsetRel::Exemplifies => "exemplifies",
            SynsetRel::Entails => "entails",
            SynsetRel::Hypernym => "hypernym",
            SynsetRel::InstanceHypernym => "instance_hypernym",
            SynsetRel::MeroMember => "mero_member",
            SynsetRel::MeroPart => "mero_part",
            SynsetRel::MeroSubstance => "mero_substance",
            SynsetRel::Similar => "similar",
            SynsetRel::Hyponym => "hyponym",
            SynsetRel::IsCausedBy => "is_caused_by",
            SynsetRel::HasDomainRegion => "has_domain_region",
            SynsetRel::HasDomainTopic => "has_domain_topic",
            SynsetRel::IsExemplifiedBy => "is_exemplified_by",
            SynsetRel::IsEntailedBy => "is_entailed_by",
            SynsetRel::InstanceHyponym => "instance_hyponym",
            SynsetRel::HoloMember => "holo_member",
            SynsetRel::HoloPart => "holo_part",
            SynsetRel::HoloSubstance => "holo_substance",
        }
    }
}

/// A sense-to-sense relation kind, as lifted to sense sets.
#[derive(Debug, Clone, Copy, PartialEq, Eq, Structural)]
pub enum SenseRel {
    Antonym,
    Participle,
    IsParticipleOf,
    Pertainym,
    IsPertainymOf,
    Derivation,
    ExemplifiesSense,
    IsExemplifiedBySense,
    Agent,
    IsAgentOf,
    Material,
    IsMaterialOf,
    Event,
    IsEventOf,
    Instrument,
    IsInstrumentOf,
    Location,
    IsLocationOf,
    ByMeansOf,
    IsByMeansOf,
    Undergoer,
    IsUndergoerOf,
    Property,
    IsPropertyOf,
    Result,
    IsResultOf,
    State,
    IsStateOf,
    Uses,
    IsUsedBy,
    Destination,
    IsDestinationOf,
    BodyPart,
    IsBodyPartOf,
    Vehicle,
    IsVehicleOf,
}

impl SenseRel {
    /// Position of this kind's list in a relation table.
    pub open spec fn idx(self) -> int {
        match self {
            SenseRel::Antonym => 0,
            SenseRel::Participle => 1,
            SenseRel::IsParticipleOf => 2,
            SenseRel::Pertainym => 3,
            SenseRel::IsPertainymOf => 4,
            SenseRel::Derivation => 5,
            SenseRel::ExemplifiesSense => 6,
            SenseRel::IsExemplifiedBySense => 7,
            SenseRel::Agent => 8,
            SenseRel::IsAgentOf => 9,
            SenseRel::Material => 10,
            SenseRel::IsMaterialOf => 11,
            SenseRel::Event => 12,
            SenseRel::IsEventOf => 13,
            SenseRel::Instrument => 14,
            SenseRel::IsInstrumentOf => 15,
            SenseRel::Location => 16,
            SenseRel::IsLocationOf => 17,
            SenseRel::ByMeansOf => 18,
            SenseRel::IsByMeansOf => 19,
            SenseRel::Undergoer => 20,
            SenseRel::IsUndergoerOf => 21,
            SenseRel::Property => 22,
            SenseRel::IsPropertyOf => 23,
            SenseRel::Result => 24,
            SenseRel::IsResultOf => 25,
            SenseRel::State => 26,
            SenseRel::IsStateOf => 27,
            SenseRel::Uses => 28,
            SenseRel::IsUsedBy => 29,
            SenseRel::Destination => 30,
            SenseRel::IsDestinationOf => 31,
            SenseRel::BodyPart => 32,
            SenseRel::IsBodyPartOf => 33,
            SenseRel::Vehicle => 34,
            SenseRel::IsVehicleOf => 35,
        }
    }

    pub fn index(&self) -> (r: usize)
        ensures
            r == self.idx(),
            r < SENSE_REL_COUNT,
    {
        match *self {
            SenseRel::Antonym => 0,
            SenseRel::Participle => 1,
            SenseRel::IsParticipleOf => 2,
            SenseRel::Pertainym => 3,
            SenseRel::IsPertainymOf => 4,
            SenseRel::Derivation => 5,
            SenseRel::ExemplifiesSense => 6,
            SenseRel::IsExemplifiedBySense => 7,
            SenseRel::Agent => 8,
            SenseRel::IsAgentOf => 9,
            SenseRel::Material => 10,
            SenseRel::IsMaterialOf => 11,
            SenseRel::Event => 12,
            SenseRel::IsEventOf => 13,
            SenseRel::Instrument => 14,
            SenseRel::IsInstrumentOf => 15,
            SenseRel::Location => 16,
            SenseRel::IsLocationOf => 17,
            SenseRel::ByMeansOf => 18,
            SenseRel::IsByMeansOf => 19,
            SenseRel::Undergoer => 20,
            SenseRel::IsUndergoerOf => 21,
            SenseRel::Property => 22,
            SenseRel::IsPropertyOf => 23,
            SenseRel::Result => 24,
            SenseRel::IsResultOf => 25,
            SenseRel::State => 26,
            SenseRel::IsStateOf => 27,
            SenseRel::Uses => 28,
            SenseRel::IsUsedBy => 29,
            SenseRel::Destination => 30,
            SenseRel::IsDestinationOf => 31,
            SenseRel::BodyPart => 32,
            SenseRel::IsBodyPartOf => 33,
            SenseRel::Vehicle => 34,
            SenseRel::IsVehicleOf => 35,
        }
    }

    /// The kind stored at position `i` of a relation table.
    pub open spec fn at(i: int) -> SenseRel {
        if i == 0 {
            SenseRel::Antonym
        } else if i == 1 {
            SenseRel::Participle
        } else if i == 2 {
            SenseRel::IsParticipleOf
        } else if i == 3 {
            SenseRel::Pertainym
        } else if i == 4 {
            SenseRel::IsPertainymOf
        } else if i == 5 {
            SenseRel::Derivation
        } else if i == 6 {
            SenseRel::ExemplifiesSense
        } else if i == 7 {
            SenseRel::IsExemplifiedBySense
        } else if i == 8 {
            SenseRel::Agent
        } else if i == 9 {
            SenseRel::IsAgentOf
        } else if i == 10 {
            SenseRel::Material
        } else if i == 11 {
            SenseRel::IsMaterialOf
        } else if i == 12 {
            SenseRel::Event
        } else if i == 13 {
            SenseRel::IsEventOf
        } else if i == 14 {
            SenseRel::Instrument
        } else if i == 15 {
            SenseRel::IsInstrumentOf
        } else if i == 16 {
            SenseRel::Location
        } else if i == 17 {
            SenseRel::IsLocationOf
        } else if i == 18 {
            SenseRel::ByMeansOf
        } else if i == 19 {
            SenseRel::IsByMeansOf
        } else if i == 20 {
            SenseRel::Undergoer
        } else if i == 21 {
            SenseRel::IsUndergoerOf
        } else if i == 22 {
            SenseRel::Property
        } else if i == 23 {
            SenseRel::IsPropertyOf
        } else if i == 24 {
            SenseRel::Result
        } else if i == 25 {
            SenseRel::IsResultOf
        } else if i == 26 {
            SenseRel::State
        } else if i == 27 {
            SenseRel::IsStateOf
        } else if i == 28 {
            SenseRel::Uses
        } else if i == 29 {
            SenseRel::IsUsedBy
        } else if i == 30 {
            SenseRel::Destination
        } else if i == 31 {
            SenseRel::IsDestinationOf
        } else if i == 32 {
            SenseRel::BodyPart
        } else if i == 33 {
            SenseRel::IsBodyPartOf
        } else if i == 34 {
            SenseRel::Vehicle
        } else {
            SenseRel::IsVehicleOf
        }
    }

    pub fn from_index(i: usize) -> (r: SenseRel)
        requires
            i < SENSE_REL_COUNT,
        ensures
            r == SenseRel::at(i as int),
            r.idx() == i,
    {
        match i {
            0 => SenseRel::Antonym,
            1 => SenseRel::Participle,
            2 => SenseRel::IsParticipleOf,
            3 => SenseRel::Pertainym,
            4 => SenseRel::IsPertainymOf,
            5 => SenseRel::Derivation,
            6 => SenseRel::ExemplifiesSense,
            7 => SenseRel::IsExemplifiedBySense,
            8 => SenseRel::Agent,
            9 => SenseRel::IsAgentOf,
            10 => SenseRel::Material,
            11 => SenseRel::IsMaterialOf,
            12 => SenseRel::Event,
            13 => SenseRel::IsEventOf,
            14 => SenseRel::Instrument,
            15 => SenseRel::IsInstrumentOf,
            16 => SenseRel::Location,
            17 => SenseRel::IsLocationOf,
            18 => SenseRel::ByMeansOf,
            19 => SenseRel::IsByMeansOf,
            20 => SenseRel::Undergoer,
            21 => SenseRel::IsUndergoerOf,
            22 => SenseRel::Property,
            23 => SenseRel::IsPropertyOf,
            24 => SenseRel::Result,
            25 => SenseRel::IsResultOf,
            26 => SenseRel::State,
            27 => SenseRel::IsStateOf,
            28 => SenseRel::Uses,
            29 => SenseRel::IsUsedBy,
            30 => SenseRel::Destination,
            31 => SenseRel::IsDestinationOf,
            32 => SenseRel::BodyPart,
            33 => SenseRel::IsBodyPartOf,
            34 => SenseRel::Vehicle,
            _ => SenseRel::IsVehicleOf,
        }
    }

    /// The kind that receives the inverse of an authored kind (the kind itself for symmetric ones): `None` for kinds that are never authored on senses.
    pub open spec fn inverse_spec(self) -> Option<SenseRel> {
        match self {
            SenseRel::Antonym => Some(SenseRel::Antonym),
            SenseRel::Participle => Some(SenseRel::IsParticipleOf),
            SenseRel::Pertainym => Some(SenseRel::IsPertainymOf),
            SenseRel::Derivation => Some(SenseRel::Derivation),
            SenseRel::ExemplifiesSense => Some(SenseRel::IsExemplifiedBySense),
            SenseRel::Agent => Some(SenseRel::IsAgentOf),
            SenseRel::Material => Some(SenseRel::IsMaterialOf),
            SenseRel::Event => Some(SenseRel::IsEventOf),
            SenseRel::Instrument => Some(SenseRel::IsInstrumentOf),
            SenseRel::Location => Some(SenseRel::IsLocationOf),
            SenseRel::ByMeansOf => Some(SenseRel::IsByMeansOf),
            SenseRel::Undergoer => Some(SenseRel::IsUndergoerOf),
            SenseRel::Property => Some(SenseRel::IsPropertyOf),
            SenseRel::Result => Some(SenseRel::IsResultOf),
            SenseRel::State => Some(SenseRel::IsStateOf),
            SenseRel::Uses => Some(SenseRel::IsUsedBy),
            SenseRel::Destination => Some(SenseRel::IsDestinationOf),
            SenseRel::BodyPart => Some(SenseRel::IsBodyPartOf),
            SenseRel::Vehicle => Some(SenseRel::IsVehicleOf),
            _ => None,
        }
    }

    pub fn inverse(&self) -> (r: Option<SenseRel>)
        ensures
            r == self.inverse_spec(),
    {
        match *self {
            SenseRel::Antonym => Some(SenseRel::Antonym),
            SenseRel::Participle => Some(SenseRel::IsParticipleOf),
            SenseRel::Pertainym => Some(SenseRel::IsPertainymOf),
            SenseRel::Derivation => Some(SenseRel::Derivation),
            SenseRel::ExemplifiesSense => Some(SenseRel::IsExemplifiedBySense),
            SenseRel::Agent => Some(SenseRel::IsAgentOf),
            SenseRel::Material => Some(SenseRel::IsMaterialOf),
            SenseRel::Event => Some(SenseRel::IsEventOf),
            SenseRel::Instrument => Some(SenseRel::IsInstrumentOf),
            SenseRel::Location => Some(SenseRel::IsLocationOf),
            SenseRel::ByMeansOf => Some(SenseRel::IsByMeansOf),
            SenseRel::Undergoer => Some(SenseRel::IsUndergoerOf),
            SenseRel::Property => Some(SenseRel::IsPropertyOf),
            SenseRel::Result => Some(SenseRel::IsResultOf),
            SenseRel::State => Some(SenseRel::IsStateOf),
            SenseRel::Uses => Some(SenseRel::IsUsedBy),
            SenseRel::Destination => Some(SenseRel::IsDestinationOf),
            SenseRel::BodyPart => Some(SenseRel::IsBodyPartOf),
            SenseRel::Vehicle => Some(SenseRel::IsVehicleOf),
            _ => None,
        }
    }

    /// Field name of this kind in a sense set record.
    pub open spec fn name_spec(self) -> Seq<char> {
        match self {
            SenseRel::Antonym => "antonym"@,
            SenseRel::Participle => "participle"@,
            SenseRel::IsParticipleOf => "is_participle_of"@,
            SenseRel::Pertainym => "pertainym"@,
            SenseRel::IsPertainymOf => "is_pertainym_of"@,
            SenseRel::Derivation => "derivation"@,
            SenseRel::ExemplifiesSense => "exemplifies_sense"@,
            SenseRel::IsExemplifiedBySense => "is_exemplified_by_sense"@,
            SenseRel::Agent => "agent"@,
            SenseRel::IsAgentOf => "is_agent_of"@,
            SenseRel::Material => "material"@,
            SenseRel::IsMaterialOf => "is_material_of"@,
            SenseRel::Event => "event"@,
            SenseRel::IsEventOf => "is_event_of"@,
            SenseRel::Instrument => "instrument"@,
            SenseRel::IsInstrumentOf => "is_instrument_of"@,
            SenseRel::Location => "location"@,
            SenseRel::IsLocationOf => "is_location_of"@,
            SenseRel::ByMeansOf => "by_means_of"@,
            SenseRel::IsByMeansOf => "is_by_means_of"@,
            SenseRel::Undergoer => "undergoer"@,
            SenseRel::IsUndergoerOf => "is_undergoer_of"@,
            SenseRel::Property => "property"@,
            SenseRel::IsPropertyOf => "is_property_of"@,
            SenseRel::Result => "result"@,
            SenseRel::IsResultOf => "is_result_of"@,
            SenseRel::State => "state"@,
            SenseRel::IsStateOf => "is_state_of"@,
            SenseRel::Uses => "uses"@,
            SenseRel::IsUsedBy => "is_used_by"@,
            SenseRel::Destination => "destination"@,
            SenseRel::IsDestinationOf => "is_destination_of"@,
            SenseRel::BodyPart => "body_part"@,
            SenseRel::IsBodyPartOf => "is_body_part_of"@,
            SenseRel::Vehicle => "vehicle"@,
            SenseRel::IsVehicleOf => "is_vehicle_of"@,
        }
    }

    pub fn name(&self) -> (r: &'static str)
        ensures
            r@ == self.name_spec(),
    {
        match *self {
            SenseRel::Antonym => "antonym",
            SenseRel::Participle => "participle",
            SenseRel::IsParticipleOf => "is_participle_of",
            SenseRel::Pertainym => "pertainym",
            SenseRel::IsPertainymOf => "is_pertainym_of",
            SenseRel::Derivation => "derivation",
            SenseRel::ExemplifiesSense => "exemplifies_sense",
            SenseRel::IsExemplifiedBySense => "is_exemplified_by_sense",
            SenseRel::Agent => "agent",
            SenseRel::IsAgentOf => "is_agent_of",
            SenseRel::Material => "material",
            SenseRel::IsMaterialOf => "is_material_of",
            SenseRel::Event => "event",
            SenseRel::IsEventOf => "is_event_of",
            SenseRel::Instrument => "instrument",
            SenseRel::IsInstrumentOf => "is_instrument_of",
            SenseRel::Location => "location",
            SenseRel::IsLocationOf => "is_location_of",
            SenseRel::ByMeansOf => "by_means_of",
            SenseRel::IsByMeansOf => "is_by_means_of",
            SenseRel::Undergoer => "undergoer",
            SenseRel::IsUndergoerOf => "is_undergoer_of",
            SenseRel::Property => "property",
            SenseRel::IsPropertyOf => "is_property_of",
            SenseRel::Result => "result",
            SenseRel::IsResultOf => "is_result_of",
            SenseRel::State => "state",
            SenseRel::IsStateOf => "is_state_of",
            SenseRel::Uses => "uses",
            SenseRel::IsUsedBy => "is_used_by",
            SenseRel::Destination => "destination",
            SenseRel::IsDestinationOf => "is_destination_of",
            SenseRel::BodyPart => "body_part",
            SenseRel::IsBodyPartOf => "is_body_part_of",
            SenseRel::Vehicle => "vehicle",
            SenseRel::IsVehicleOf => "is_vehicle_of",
        }
    }
}

/// Distinct kinds have distinct positions.
pub proof fn lemma_synset_rel_idx(a: SynsetRel, b: SynsetRel)
    ensures
        0 <= a.idx() < SYNSET_REL_COUNT,
        a.idx() == b.idx() ==> a == b,
        SynsetRel::at(a.idx()) == a,
{
}

/// Distinct kinds have distinct positions.
pub proof fn lemma_sense_rel_idx(a: SenseRel, b: SenseRel)
    ensures
        0 <= a.idx() < SENSE_REL_COUNT,
        a.idx() == b.idx() ==> a == b,
        SenseRel::at(a.idx()) == a,
{
}

} // verus!
