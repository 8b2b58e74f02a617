//! The tag categorizer: reduces OSM's open-ended key/value tag vocabulary to
//! a fixed accessibility model of four transport modes, the car and bike
//! modes split by direction.

use crate::text::str_eq;
use vstd::prelude::*;

verus! {

/// Whether pedestrians may use an edge.
#[derive(Clone, Copy, Debug, PartialEq, Eq, Structural)]
pub enum FootAccessibility {
    Unknown,
    Forbidden,
    Allowed,
}

/// Whether cars may use an edge in one direction, ordered by increasing
/// capacity of the road.
#[derive(Clone, Copy, Debug, PartialEq, Eq, Structural)]
pub enum CarAccessibility {
    Unknown,
    Forbidden,
    Residential,
    Tertiary,
    Secondary,
    Primary,
    Trunk,
    Motorway,
}

/// Whether bicycles may use an edge in one direction: `Allowed` is shared
/// traffic, `Lane` a painted lane, `Busway` a shared bus lane, `Track` a
/// physically separated track.
#[derive(Clone, Copy, Debug, PartialEq, Eq, Structural)]
pub enum BikeAccessibility {
    Unknown,
    Forbidden,
    Allowed,
    Lane,
    Busway,
    Track,
}

/// Whether trains run on an edge.
#[derive(Clone, Copy, Debug, PartialEq, Eq, Structural)]
pub enum TrainAccessibility {
    Unknown,
    Forbidden,
    Allowed,
}

/// What modes can use an edge, in each direction where the mode is
/// directional.
#[derive(Clone, Copy, Debug, PartialEq, Eq, Structural)]
pub struct EdgeProperties {
    pub foot: FootAccessibility,
    pub car_forward: CarAccessibility,
    pub car_backward: CarAccessibility,
    pub bike_forward: BikeAccessibility,
    pub bike_backward: BikeAccessibility,
    pub train: TrainAccessibility,
}

impl EdgeProperties {
    /// The starting point of categorization: everything unknown.
    pub open spec fn spec_default() -> EdgeProperties {
        EdgeProperties {
            foot: FootAccessibility::Unknown,
            car_forward: CarAccessibility::Unknown,
            car_backward: CarAccessibility::Unknown,
            bike_forward: BikeAccessibility::Unknown,
            bike_backward: BikeAccessibility::Unknown,
            train: TrainAccessibility::Unknown,
        }
    }

    /// Filling of defaults: backward directions copy the forward value when
    /// unknown, then any remaining unknown becomes forbidden.
    pub open spec fn spec_normalize(self) -> EdgeProperties {
        let car_backward = if self.car_backward is Unknown {
            self.car_forward
        } else {
            self.car_backward
        };
        let bike_backward = if self.bike_backward is Unknown {
            self.bike_forward
        } else {
            self.bike_backward
        };
        EdgeProperties {
            foot: if self.foot is Unknown {
                FootAccessibility::Forbidden
            } else {
                self.foot
            },
            car_forward: if self.car_forward is Unknown {
                CarAccessibility::Forbidden
            } else {
                self.car_forward
            },
            car_backward: if car_backward is Unknown {
                CarAccessibility::Forbidden
            } else {
                car_backward
            },
            bike_forward: if self.bike_forward is Unknown {
                BikeAccessibility::Forbidden
            } else {
                self.bike_forward
            },
            bike_backward: if bike_backward is Unknown {
                BikeAccessibility::Forbidden
            } else {
                bike_backward
            },
            train: if self.train is Unknown {
                TrainAccessibility::Forbidden
            } else {
                self.train
            },
        }
    }

    /// At least one mode can use the edge in at least one direction.
    pub open spec fn spec_accessible(self) -> bool {
        ||| !(self.bike_forward is Forbidden)
        ||| !(self.bike_backward is Forbidden)
        ||| !(self.car_forward is Forbidden)
        ||| !(self.car_backward is Forbidden)
        ||| !(self.foot is Forbidden)
        ||| !(self.train is Forbidden)
    }

    /// No field is left unknown.
    pub open spec fn unknown_free(self) -> bool {
        &&& !(self.foot is Unknown)
        &&& !(self.car_forward is Unknown)
        &&& !(self.car_backward is Unknown)
        &&& !(self.bike_forward is Unknown)
        &&& !(self.bike_backward is Unknown)
        &&& !(self.train is Unknown)
    }

    /// The effect of the tag `oneway=yes` (and of `junction=roundabout`):
    /// backward car travel is forbidden, and backward bike travel too unless
    /// some tag already settled it.
    pub open spec fn spec_oneway(self) -> EdgeProperties {
        EdgeProperties {
            car_backward: CarAccessibility::Forbidden,
            bike_backward: if self.bike_backward is Unknown {
                BikeAccessibility::Forbidden
            } else {
                self.bike_backward
            },
            ..self
        }
    }

    /// The effect of one OSM tag on the accessibility model.  Keys and
    /// values outside the table leave the properties unchanged.
    pub open spec fn spec_update(self, key: Seq<char>, val: Seq<char>) -> EdgeProperties {
        if key == "highway"@ {
            if val == "cycleway"@ {
                EdgeProperties {
                    bike_forward: BikeAccessibility::Track,
                    foot: FootAccessibility::Allowed,
                    ..self
                }
            } else if val == "path"@ || val == "footway"@ || val == "steps"@ || val
                == "pedestrian"@ {
                EdgeProperties {
                    bike_forward: BikeAccessibility::Allowed,
                    foot: FootAccessibility::Allowed,
                    ..self
                }
            } else if val == "primary"@ || val == "primary_link"@ {
                EdgeProperties {
                    car_forward: CarAccessibility::Primary,
                    foot: FootAccessibility::Allowed,
                    bike_forward: BikeAccessibility::Allowed,
                    ..self
                }
            } else if val == "secondary"@ {
                EdgeProperties {
                    car_forward: CarAccessibility::Secondary,
                    foot: FootAccessibility::Allowed,
                    bike_forward: BikeAccessibility::Allowed,
                    ..self
                }
            } else if val == "tertiary"@ {
                EdgeProperties {
                    car_forward: CarAccessibility::Tertiary,
                    foot: FootAccessibility::Allowed,
                    bike_forward: BikeAccessibility::Allowed,
                    ..self
                }
            } else if val == "unclassified"@ || val == "residential"@ || val == "living_street"@
                || val == "road"@ || val == "service"@ || val == "track"@ {
                EdgeProperties {
                    car_forward: CarAccessibility::Residential,
                    foot: FootAccessibility::Allowed,
                    bike_forward: BikeAccessibility::Allowed,
                    ..self
                }
            } else if val == "motorway"@ || val == "motorway_link"@ {
                EdgeProperties {
                    car_forward: CarAccessibility::Motorway,
                    foot: FootAccessibility::Forbidden,
                    bike_forward: BikeAccessibility::Forbidden,
                    ..self
                }
            } else if val == "trunk"@ || val == "trunk_link"@ {
                EdgeProperties {
                    car_forward: CarAccessibility::Trunk,
                    foot: FootAccessibility::Forbidden,
                    bike_forward: BikeAccessibility::Forbidden,
                    ..self
                }
            } else {
                self
            }
        } else if key == "pedestrian"@ || key == "foot"@ {
            if val == "no"@ {
                EdgeProperties { foot: FootAccessibility::Forbidden, ..self }
            } else {
                EdgeProperties { foot: FootAccessibility::Allowed, ..self }
            }
        } else if key == "cycleway"@ {
            if val == "track"@ {
                EdgeProperties { bike_forward: BikeAccessibility::Track, ..self }
            } else if val == "opposite_track"@ {
                EdgeProperties { bike_backward: BikeAccessibility::Track, ..self }
            } else if val == "opposite"@ {
                EdgeProperties { bike_backward: BikeAccessibility::Allowed, ..self }
            } else if val == "share_busway"@ {
                EdgeProperties { bike_forward: BikeAccessibility::Busway, ..self }
            } else if val == "lane_left"@ || val == "opposite_lane"@ {
                EdgeProperties { bike_backward: BikeAccessibility::Lane, ..self }
            } else {
                EdgeProperties { bike_forward: BikeAccessibility::Lane, ..self }
            }
        } else if key == "bicycle"@ {
            if val == "no"@ || val == "false"@ {
                EdgeProperties { bike_forward: BikeAccessibility::Forbidden, ..self }
            } else {
                EdgeProperties { bike_forward: BikeAccessibility::Allowed, ..self }
            }
        } else if key == "busway"@ {
            if val == "opposite_lane"@ || val == "opposite_track"@ {
                EdgeProperties { bike_backward: BikeAccessibility::Busway, ..self }
            } else {
                EdgeProperties { bike_forward: BikeAccessibility::Busway, ..self }
            }
        } else if key == "oneway"@ {
            if val == "yes"@ || val == "true"@ || val == "1"@ {
                self.spec_oneway()
            } else {
                self
            }
        } else if key == "junction"@ {
            if val == "roundabout"@ {
                self.spec_oneway()
            } else {
                self
            }
        } else if key == "railway"@ {
            EdgeProperties { train: TrainAccessibility::Allowed, ..self }
        } else {
            self
        }
    }

    /// Fills the unknown fields: backward directions default to the forward
    /// value, anything still unknown becomes forbidden.
    pub fn normalize(&mut self)
        ensures
            *final(self) == old(self).spec_normalize(),
    {
        if self.car_backward == CarAccessibility::Unknown {
            self.car_backward = self.car_forward;
        }
        if self.bike_backward == BikeAccessibility::Unknown {
            self.bike_backward = self.bike_forward;
        }
        if self.car_forward == CarAccessibility::Unknown {
            self.car_forward = CarAccessibility::Forbidden;
        }
        if self.bike_forward == BikeAccessibility::Unknown {
            self.bike_forward = BikeAccessibility::Forbidden;
        }
        if self.car_backward == CarAccessibility::Unknown {
            self.car_backward = CarAccessibility::Forbidden;
        }
        if self.bike_backward == BikeAccessibility::Unknown {
            self.bike_backward = BikeAccessibility::Forbidden;
        }
        if self.foot == FootAccessibility::Unknown {
            self.foot = FootAccessibility::Forbidden;
        }
        if self.train == TrainAccessibility::Unknown {
            self.train = TrainAccessibility::Forbidden;
        }
    }

    /// At least one mode can use the edge in at least one direction.
    pub fn accessible(self) -> (r: bool)
        ensures
            r == self.spec_accessible(),
    {
        self.bike_forward != BikeAccessibility::Forbidden || self.bike_backward
            != BikeAccessibility::Forbidden || self.car_forward != CarAccessibility::Forbidden
            || self.car_backward != CarAccessibility::Forbidden || self.foot
            != FootAccessibility::Forbidden || self.train != TrainAccessibility::Forbidden
    }

    /// Applies one tag given as owned strings.
    pub fn update(&mut self, key_string: String, val_string: String)
        ensures
            *final(self) == old(self).spec_update(key_string@, val_string@),
    {
        let key = key_string.as_str();
        let val = val_string.as_str();
        self.update_with_str(key, val);
    }

    /// Applies one tag to the accessibility model, per the categorization
    /// table; unrecognized keys and values change nothing.
    pub fn update_with_str(&mut self, key: &str, val: &str)
        ensures
            *final(self) == old(self).spec_update(key@, val@),
    {
        if str_eq(key, "highway") {
            if str_eq(val, "cycleway") {
                self.bike_forward = BikeAccessibility::Track;
                self.foot = FootAccessibility::Allowed;
            } else if str_eq(val, "path") || str_eq(val, "footway") || str_eq(val, "steps")
                || str_eq(val, "pedestrian") {
                self.bike_forward = BikeAccessibility::Allowed;
                self.foot = FootAccessibility::Allowed;
            } else if str_eq(val, "primary") || str_eq(val, "primary_link") {
                self.car_forward = CarAccessibility::Primary;
                self.foot = FootAccessibility::Allowed;
                self.bike_forward = BikeAccessibility::Allowed;
            } else if str_eq(val, "secondary") {
                self.car_forward = CarAccessibility::Secondary;
                self.foot = FootAccessibility::Allowed;
                self.bike_forward = BikeAccessibility::Allowed;
            } else if str_eq(val, "tertiary") {
                self.car_forward = CarAccessibility::Tertiary;
                self.foot = FootAccessibility::Allowed;
                self.bike_forward = BikeAccessibility::Allowed;
            } else if str_eq(val, "unclassified") || str_eq(val, "residential") || str_eq(
                val,
                "living_street",
            ) || str_eq(val, "road") || str_eq(val, "service") || str_eq(val, "track") {
                self.car_forward = CarAccessibility::Residential;
                self.foot = FootAccessibility::Allowed;
                self.bike_forward = BikeAccessibility::Allowed;
            } else if str_eq(val, "motorway") || str_eq(val, "motorway_link") {
                self.car_forward = CarAccessibility::Motorway;
                self.foot = FootAccessibility::Forbidden;
                self.bike_forward = BikeAccessibility::Forbidden;
            } else if str_eq(val, "trunk") || str_eq(val, "trunk_link") {
                self.car_forward = CarAccessibility::Trunk;
                self.foot = FootAccessibility::Forbidden;
                self.bike_forward = BikeAccessibility::Forbidden;
            }
        } else if str_eq(key, "pedestrian") || str_eq(key, "foot") {
            if str_eq(val, "no") {
                self.foot = FootAccessibility::Forbidden;
            } else {
                self.foot = FootAccessibility::Allowed;
            }
        } else if str_eq(key, "cycleway") {
            if str_eq(val, "track") {
                self.bike_forward = BikeAccessibility::Track;
            } else if str_eq(val, "opposite_track") {
                self.bike_backward = BikeAccessibility::Track;
            } else if str_eq(val, "opposite") {
                self.bike_backward = BikeAccessibility::Allowed;
            } else if str_eq(val, "share_busway") {
                self.bike_forward = BikeAccessibility::Busway;
            } else if str_eq(val, "lane_left") || str_eq(val, "opposite_lane") {
                self.bike_backward = BikeAccessibility::Lane;
            } else {
                self.bike_forward = BikeAccessibility::Lane;
            }
        } else if str_eq(key, "bicycle") {
            if str_eq(val, "no") || str_eq(val, "false") {
                self.bike_forward = BikeAccessibility::Forbidden;
            } else {
                self.bike_forward = BikeAccessibility::Allowed;
            }
        } else if str_eq(key, "busway") {
            if str_eq(val, "opposite_lane") || str_eq(val, "opposite_track") {
                self.bike_backward = BikeAccessibility::Busway;
            } else {
                self.bike_forward = BikeAccessibility::Busway;
            }
        } else if str_eq(key, "oneway") {
            if str_eq(val, "yes") || str_eq(val, "true") || str_eq(val, "1") {
                self.car_backward = CarAccessibility::Forbidden;
                if self.bike_backward == BikeAccessibility::Unknown {
                    self.bike_backward = BikeAccessibility::Forbidden;
                }
            }
        } else if str_eq(key, "junction") {
            if str_eq(val, "roundabout") {
                self.car_backward = CarAccessibility::Forbidden;
                if self.bike_backward == BikeAccessibility::Unknown {
                    self.bike_backward = BikeAccessibility::Forbidden;
                }
            }
        } else if str_eq(key, "railway") {
            self.train = TrainAccessibility::Allowed;
        }
    }
}

impl Default for EdgeProperties {
    /// The starting point of categorization: everything unknown.
    fn default() -> (r: EdgeProperties)
        ensures
            r == EdgeProperties::spec_default(),
    {
        EdgeProperties {
            foot: FootAccessibility::Unknown,
            car_forward: CarAccessibility::Unknown,
            car_backward: CarAccessibility::Unknown,
            bike_forward: BikeAccessibility::Unknown,
            bike_backward: BikeAccessibility::Unknown,
            train: TrainAccessibility::Unknown,
        }
    }
}

/// After normalization no field is left unknown, whatever the input.
pub proof fn lemma_normalize_unknown_free(p: EdgeProperties)
    ensures
        p.spec_normalize().unknown_free(),
{
}

/// Only the `cycleway`, `busway`, `oneway` and `junction` keys can settle a
/// backward direction: every other tag leaves both backward fields as they
/// were.
pub proof fn lemma_update_preserves_backward(p: EdgeProperties, key: Seq<char>, val: Seq<char>)
    ensures
        key != "cycleway"@ && key != "busway"@ && key != "oneway"@ && key != "junction"@ ==> {
            &&& p.spec_update(key, val).car_backward == p.car_backward
            &&& p.spec_update(key, val).bike_backward == p.bike_backward
        },
{
}

/// The symmetric default: when no tag settled the backward directions, the
/// normalized backward values equal the forward ones.
pub proof fn lemma_normalize_symmetric_default(p: EdgeProperties)
    ensures
        p.car_backward is Unknown ==> p.spec_normalize().car_backward
            == p.spec_normalize().car_forward,
        p.bike_backward is Unknown ==> p.spec_normalize().bike_backward
            == p.spec_normalize().bike_forward,
{
}

} // verus!
