use osm4routing::{
    BikeAccessibility, CarAccessibility, Coord, EdgeProperties, FootAccessibility, GraphError,
    Node, Reader, Tag, TrainAccessibility,
};

fn node(id: i64) -> Node {
    Node { id, coord: Coord { decimicro_lon: 0, decimicro_lat: 0 }, uses: 0 }
}

fn tag(key: &str, value: &str) -> Tag {
    Tag { key: key.to_string(), value: value.to_string() }
}

#[test]
fn test_count_nodes() {
    let mut r = Reader::new();
    r.push_node(node(1));
    r.push_node(node(2));
    r.push_node(node(3));
    r.push_way(0, vec![1, 2, 3], EdgeProperties::default(), vec![]);
    r.count_nodes_uses().unwrap();
    assert_eq!(2, r.get_node(1).unwrap().uses);
    assert_eq!(1, r.get_node(2).unwrap().uses);
    assert_eq!(2, r.get_node(3).unwrap().uses);

    assert_eq!(2, r.nodes().len());
}

#[test]
fn test_split() {
    let mut r = Reader::new();
    for id in 1..6 {
        r.push_node(node(id));
    }
    r.push_way(0, vec![1, 2, 3], EdgeProperties::default(), vec![]);
    r.push_way(0, vec![4, 5, 2], EdgeProperties::default(), vec![]);
    r.count_nodes_uses().unwrap();
    let edges = r.edges();
    assert_eq!(3, edges.len());
}

#[test]
fn minimal_way_over_two_nodes() {
    let mut r = Reader::new();
    r.process_way(1, vec![1, 2], vec![tag("highway", "secondary")]);
    r.process_node(1, Coord { decimicro_lon: 0, decimicro_lat: 0 });
    r.process_node(2, Coord { decimicro_lon: 10_000_000, decimicro_lat: 0 });
    let (nodes, edges) = r.build().unwrap();
    assert_eq!(2, nodes.len());
    assert!(nodes.iter().all(|n| n.uses == 2));
    assert_eq!(1, edges.len());
    let e = &edges[0];
    assert_eq!("1-0", e.id);
    assert_eq!(1, e.osm_id);
    assert_eq!(1, e.source);
    assert_eq!(2, e.target);
    assert_eq!(vec![1, 2], e.nodes);
    assert_eq!(2, e.geometry.len());
    assert_eq!(CarAccessibility::Secondary, e.properties.car_forward);
    assert_eq!(CarAccessibility::Secondary, e.properties.car_backward);
    assert_eq!(FootAccessibility::Allowed, e.properties.foot);
    assert_eq!(BikeAccessibility::Allowed, e.properties.bike_forward);
    assert_eq!(BikeAccessibility::Allowed, e.properties.bike_backward);
    assert_eq!(TrainAccessibility::Forbidden, e.properties.train);
}

#[test]
fn two_ways_sharing_an_intersection() {
    let mut r = Reader::new();
    r.process_way(1, vec![1, 2, 3], vec![tag("highway", "residential")]);
    r.process_way(2, vec![4, 5, 2], vec![tag("highway", "residential")]);
    for id in 1..6 {
        r.process_node(id, Coord { decimicro_lon: id as i32, decimicro_lat: 0 });
    }
    let (_, edges) = r.build().unwrap();
    assert_eq!(2, r.get_node(1).unwrap().uses);
    assert_eq!(3, r.get_node(2).unwrap().uses);
    assert_eq!(2, r.get_node(3).unwrap().uses);
    assert_eq!(2, r.get_node(4).unwrap().uses);
    assert_eq!(1, r.get_node(5).unwrap().uses);
    assert_eq!(3, edges.len());
    let mut ids: Vec<&str> = edges.iter().map(|e| e.id.as_str()).collect();
    ids.sort();
    assert_eq!(vec!["1-0", "1-1", "2-0"], ids);
}

#[test]
fn motorway_oneway_still_emits_an_edge() {
    let mut r = Reader::new();
    r.process_way(7, vec![1, 2], vec![tag("highway", "motorway"), tag("oneway", "yes")]);
    r.process_node(1, Coord { decimicro_lon: 0, decimicro_lat: 0 });
    r.process_node(2, Coord { decimicro_lon: 1, decimicro_lat: 0 });
    let (_, edges) = r.build().unwrap();
    assert_eq!(1, edges.len());
    assert_eq!(CarAccessibility::Motorway, edges[0].properties.car_forward);
    assert_eq!(CarAccessibility::Forbidden, edges[0].properties.car_backward);
    assert_eq!(FootAccessibility::Forbidden, edges[0].properties.foot);
    assert_eq!(BikeAccessibility::Forbidden, edges[0].properties.bike_forward);
    assert_eq!(BikeAccessibility::Forbidden, edges[0].properties.bike_backward);
}

#[test]
fn forbidden_values() {
    let mut r = Reader::new().reject("highway", "secondary");
    r.process_way(1, vec![1, 2], vec![tag("highway", "secondary")]);
    r.process_node(1, Coord { decimicro_lon: 0, decimicro_lat: 0 });
    r.process_node(2, Coord { decimicro_lon: 1, decimicro_lat: 0 });
    let (_, edges) = r.build().unwrap();
    assert_eq!(0, edges.len());
}

#[test]
fn forbidden_wildcard() {
    let mut r = Reader::new().reject("highway", "*");
    r.process_way(1, vec![1, 2], vec![tag("highway", "secondary")]);
    r.process_node(1, Coord { decimicro_lon: 0, decimicro_lat: 0 });
    r.process_node(2, Coord { decimicro_lon: 1, decimicro_lat: 0 });
    let (_, edges) = r.build().unwrap();
    assert_eq!(0, edges.len());
}

#[test]
fn require_value_ok() {
    let mut r = Reader::new().require("highway", "secondary");
    r.process_way(1, vec![1, 2], vec![tag("highway", "secondary")]);
    r.process_node(1, Coord { decimicro_lon: 0, decimicro_lat: 0 });
    r.process_node(2, Coord { decimicro_lon: 1, decimicro_lat: 0 });
    let (_, edges) = r.build().unwrap();
    assert_eq!(1, edges.len());
}

#[test]
fn require_value_missing() {
    let mut r = Reader::new().require("highway", "primary");
    r.process_way(1, vec![1, 2], vec![tag("highway", "secondary")]);
    r.process_node(1, Coord { decimicro_lon: 0, decimicro_lat: 0 });
    r.process_node(2, Coord { decimicro_lon: 1, decimicro_lat: 0 });
    let (_, edges) = r.build().unwrap();
    assert_eq!(0, edges.len());
}

#[test]
fn require_wildcart() {
    let mut r = Reader::new().require("highway", "*");
    r.process_way(1, vec![1, 2], vec![tag("highway", "secondary")]);
    r.process_node(1, Coord { decimicro_lon: 0, decimicro_lat: 0 });
    r.process_node(2, Coord { decimicro_lon: 1, decimicro_lat: 0 });
    let (_, edges) = r.build().unwrap();
    assert_eq!(1, edges.len());
}

#[test]
fn require_multiple_tags() {
    let mut r = Reader::new().require("highway", "primary").require("highway", "secondary");
    r.process_way(1, vec![1, 2], vec![tag("highway", "secondary")]);
    r.process_node(1, Coord { decimicro_lon: 0, decimicro_lat: 0 });
    r.process_node(2, Coord { decimicro_lon: 1, decimicro_lat: 0 });
    let (_, edges) = r.build().unwrap();
    assert_eq!(1, edges.len());
}

#[test]
fn way_of_node() {
    let mut r = Reader::new();
    r.process_way(1, vec![1, 2], vec![tag("highway", "secondary")]);
    r.process_node(1, Coord { decimicro_lon: 0, decimicro_lat: 0 });
    r.process_node(2, Coord { decimicro_lon: 1, decimicro_lat: 0 });
    let (_, edges) = r.build().unwrap();
    assert_eq!(2, edges[0].nodes.len());
}

#[test]
fn read_tags() {
    let mut r = Reader::new().read_tag("highway");
    r.process_way(1, vec![1, 2], vec![tag("highway", "secondary"), tag("name", "main street")]);
    r.process_node(1, Coord { decimicro_lon: 0, decimicro_lat: 0 });
    r.process_node(2, Coord { decimicro_lon: 1, decimicro_lat: 0 });
    let (_, edges) = r.build().unwrap();
    assert_eq!(1, edges[0].tags.len());
    assert_eq!("highway", edges[0].tags[0].key);
    assert_eq!("secondary", edges[0].tags[0].value);
}

#[test]
fn missing_node_is_fatal() {
    let mut r = Reader::new();
    r.process_way(1, vec![1, 2], vec![tag("highway", "secondary")]);
    r.process_node(1, Coord { decimicro_lon: 0, decimicro_lat: 0 });
    let err = r.build().unwrap_err();
    assert_eq!(GraphError::MissingNode(2), err);
    assert_eq!("Missing node, id: 2", err.message());
}

#[test]
fn negative_identifiers_render_in_edge_ids() {
    let mut r = Reader::new();
    r.process_way(-42, vec![-1, -2], vec![tag("highway", "secondary")]);
    r.process_node(-1, Coord { decimicro_lon: 0, decimicro_lat: 0 });
    r.process_node(-2, Coord { decimicro_lon: 1, decimicro_lat: 0 });
    let (_, edges) = r.build().unwrap();
    assert_eq!(1, edges.len());
    assert_eq!("-42-0", edges[0].id);
}

#[test]
fn edge_ids_are_distinct() {
    let mut r = Reader::new();
    r.process_way(10, vec![1, 2, 3], vec![tag("highway", "secondary")]);
    r.process_way(11, vec![4, 2, 5], vec![tag("highway", "secondary")]);
    for id in 1..6 {
        r.process_node(id, Coord { decimicro_lon: id as i32, decimicro_lat: 0 });
    }
    let (_, edges) = r.build().unwrap();
    assert_eq!(4, edges.len());
    for a in 0..edges.len() {
        for b in (a + 1)..edges.len() {
            assert_ne!(edges[a].id, edges[b].id);
        }
    }
}

#[test]
fn merging_edges() {
    let mut r = Reader::new();
    r.process_way(1, vec![1, 2], vec![tag("highway", "secondary")]);
    r.process_way(2, vec![2, 3], vec![tag("highway", "secondary")]);
    for id in 1..4 {
        r.process_node(id, Coord { decimicro_lon: id as i32, decimicro_lat: 0 });
    }
    let (nodes, edges) = r.build().unwrap();
    assert_eq!(2, edges.len());
    assert_eq!(3, nodes.len());

    let mut r = Reader::new().merge_ways();
    r.process_way(1, vec![1, 2], vec![tag("highway", "secondary")]);
    r.process_way(2, vec![2, 3], vec![tag("highway", "secondary")]);
    for id in 1..4 {
        r.process_node(id, Coord { decimicro_lon: id as i32, decimicro_lat: 0 });
    }
    let (nodes, edges) = r.build().unwrap();
    assert_eq!(1, edges.len());
    assert!(edges[0].id == "1-0-2-0" || edges[0].id == "2-0-1-0");
    assert_eq!(3, edges[0].geometry.len());
    assert_eq!(3, edges[0].nodes.len());
    assert_eq!(2, nodes.len());
    assert!(nodes.iter().all(|n| n.id != 2));
}

#[test]
fn merger_is_idempotent_on_its_output() {
    let mut r = Reader::new().merge_ways();
    r.process_way(1, vec![1, 2], vec![tag("highway", "secondary")]);
    r.process_way(2, vec![2, 3], vec![tag("highway", "secondary")]);
    r.process_way(3, vec![3, 4], vec![tag("highway", "secondary")]);
    for id in 1..5 {
        r.process_node(id, Coord { decimicro_lon: id as i32, decimicro_lat: 0 });
    }
    let (_, edges) = r.build().unwrap();
    assert_eq!(1, edges.len());
    let before: Vec<String> = edges.iter().map(|e| e.id.clone()).collect();
    let again = r.do_merge_edges(edges);
    let after: Vec<String> = again.iter().map(|e| e.id.clone()).collect();
    assert_eq!(before, after);
}

#[test]
fn merger_ignores_tag_order() {
    let mut r = Reader::new().merge_ways().read_tag("highway").read_tag("name");
    r.process_way(1, vec![1, 2], vec![tag("highway", "secondary"), tag("name", "high road")]);
    r.process_way(2, vec![2, 3], vec![tag("name", "high road"), tag("highway", "secondary")]);
    for id in 1..4 {
        r.process_node(id, Coord { decimicro_lon: id as i32, decimicro_lat: 0 });
    }
    let (_, edges) = r.build().unwrap();
    assert_eq!(1, edges.len());
}

#[test]
fn merger_keeps_distinct_properties_apart() {
    let mut r = Reader::new().merge_ways();
    r.process_way(1, vec![1, 2], vec![tag("highway", "secondary")]);
    r.process_way(2, vec![2, 3], vec![tag("highway", "primary")]);
    for id in 1..4 {
        r.process_node(id, Coord { decimicro_lon: id as i32, decimicro_lat: 0 });
    }
    let (_, edges) = r.build().unwrap();
    assert_eq!(2, edges.len());
}

#[test]
fn str_eq_agrees_with_equality() {
    assert!(osm4routing::str_eq("highway", "highway"));
    assert!(!osm4routing::str_eq("highway", "railway"));
    assert!(!osm4routing::str_eq("high", "highway"));
    assert!(osm4routing::str_eq("", ""));
}
