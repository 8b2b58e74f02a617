use osm4routing::{BikeAccessibility, CarAccessibility, EdgeProperties, FootAccessibility};

#[test]
fn test_accessible() {
    let mut p = EdgeProperties::default();
    p.normalize();
    assert!(!p.accessible());

    p.foot = FootAccessibility::Allowed;
    assert!(p.accessible())
}

#[test]
fn test_normalize() {
    let mut p = EdgeProperties::default();
    p.bike_forward = BikeAccessibility::Lane;
    p.normalize();
    assert_eq!(BikeAccessibility::Lane, p.bike_backward);
    p.bike_forward = BikeAccessibility::Allowed;
    p.normalize();
    assert_eq!(BikeAccessibility::Lane, p.bike_backward);

    p.car_forward = CarAccessibility::Secondary;
    p.car_backward = CarAccessibility::Unknown;
    p.normalize();
    assert_eq!(CarAccessibility::Secondary, p.car_backward)
}

#[test]
fn test_update() {
    let mut p = EdgeProperties::default();
    p.update_with_str("highway", "secondary");
    assert_eq!(CarAccessibility::Secondary, p.car_forward);

    p.update_with_str("highway", "primary_link");
    assert_eq!(CarAccessibility::Primary, p.car_forward);

    p.update_with_str("highway", "motorway");
    assert_eq!(CarAccessibility::Motorway, p.car_forward);

    p.update_with_str("highway", "residential");
    assert_eq!(CarAccessibility::Residential, p.car_forward);

    p.update_with_str("highway", "tertiary");
    assert_eq!(CarAccessibility::Tertiary, p.car_forward);

    p.update_with_str("highway", "trunk");
    assert_eq!(CarAccessibility::Trunk, p.car_forward);

    p.update_with_str("highway", "cycleway");
    assert_eq!(BikeAccessibility::Track, p.bike_forward);
    assert_eq!(FootAccessibility::Allowed, p.foot);

    p.update_with_str("foot", "designated");
    assert_eq!(FootAccessibility::Allowed, p.foot);

    p.update_with_str("foot", "no");
    assert_eq!(FootAccessibility::Forbidden, p.foot);

    p.update_with_str("cycleway", "lane");
    assert_eq!(BikeAccessibility::Lane, p.bike_forward);

    p.update_with_str("cycleway", "track");
    assert_eq!(BikeAccessibility::Track, p.bike_forward);

    p.update_with_str("cycleway", "opposite_lane");
    assert_eq!(BikeAccessibility::Lane, p.bike_backward);

    p.update_with_str("cycleway", "opposite_track");
    assert_eq!(BikeAccessibility::Track, p.bike_backward);

    p.update_with_str("cycleway", "opposite");
    assert_eq!(BikeAccessibility::Allowed, p.bike_backward);

    p.update_with_str("cycleway", "share_busway");
    assert_eq!(BikeAccessibility::Busway, p.bike_forward);

    p.update_with_str("cycleway", "lane_left");
    assert_eq!(BikeAccessibility::Lane, p.bike_backward);

    p.update_with_str("bicycle", "yes");
    assert_eq!(BikeAccessibility::Allowed, p.bike_forward);

    p.update_with_str("bicycle", "no");
    assert_eq!(BikeAccessibility::Forbidden, p.bike_forward);

    p.update_with_str("busway", "yes");
    assert_eq!(BikeAccessibility::Busway, p.bike_forward);

    p.update_with_str("busway", "opposite_track");
    assert_eq!(BikeAccessibility::Busway, p.bike_backward);

    p.update_with_str("oneway", "yes");
    assert_eq!(CarAccessibility::Forbidden, p.car_backward);
    assert!(p.bike_backward != BikeAccessibility::Forbidden);

    p.bike_backward = BikeAccessibility::Unknown;
    p.update_with_str("oneway", "yes");
    assert_eq!(BikeAccessibility::Forbidden, p.bike_backward);

    p.update_with_str("junction", "roundabout");
    assert_eq!(CarAccessibility::Forbidden, p.car_backward);

    p.bike_backward = BikeAccessibility::Unknown;
    p.update_with_str("junction", "roundabout");
    assert_eq!(BikeAccessibility::Forbidden, p.bike_backward);
}

#[test]
fn motorway_oneway_properties() {
    let mut p = EdgeProperties::default();
    p.update_with_str("highway", "motorway");
    p.update_with_str("oneway", "yes");
    p.normalize();
    assert_eq!(CarAccessibility::Motorway, p.car_forward);
    assert_eq!(CarAccessibility::Forbidden, p.car_backward);
    assert_eq!(FootAccessibility::Forbidden, p.foot);
    assert_eq!(BikeAccessibility::Forbidden, p.bike_forward);
    assert_eq!(BikeAccessibility::Forbidden, p.bike_backward);
    assert!(p.accessible());
}

#[test]
fn symmetric_default_after_forward_tags() {
    let mut p = EdgeProperties::default();
    p.update_with_str("highway", "secondary");
    p.normalize();
    assert_eq!(p.car_forward, p.car_backward);
    assert_eq!(p.bike_forward, p.bike_backward);
}

#[test]
fn unknown_tags_change_nothing() {
    let mut p = EdgeProperties::default();
    p.update_with_str("maxspeed", "50");
    p.update_with_str("highway", "towpath");
    assert_eq!(p, EdgeProperties::default());
}
