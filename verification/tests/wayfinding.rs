use kingdom_citymap::layout::stable_hash;
use kingdom_citymap::wayfinding::{
    label_colour, label_ink, label_order, shout, ward_palette, ward_palettes, WardFamily,
};

#[test]
fn a_kerb_is_always_darker_than_the_ground_it_borders() {
    let seed = stable_hash("viewer");
    for depth in 0..6 {
        let (ground, edge) = ward_palette(seed, depth);
        for channel in 0..3 {
            assert!(
                edge[channel] < ground[channel],
                "depth {depth} channel {channel}: kerb {edge:?} did not read against {ground:?}"
            );
        }
        assert_eq!(edge[3], 255, "a kerb is opaque at every depth");
    }
}

#[test]
fn nesting_lightens_the_ground_at_every_step() {
    let seed = stable_hash("src");
    let shades: Vec<u16> = (0..5)
        .map(|depth| ward_palette(seed, depth).0[1] as u16)
        .collect();
    for pair in shades.windows(2) {
        assert!(
            pair[1] > pair[0],
            "depth should keep lightening, got {shades:?}"
        );
    }
}

fn ward(id: &str, name: &str, parent: Option<&str>, depth: usize) -> WardFamily {
    WardFamily {
        id: id.to_owned(),
        depth,
        parent: parent.map(str::to_owned),
        seed: stable_hash(name),
        files: 1,
    }
}

#[test]
fn a_subtree_shares_one_colour_family() {
    let wards = vec![
        ward("ward-0", "src", None, 0),
        ward("ward-1", "engine", Some("ward-0"), 1),
        ward("ward-2", "docs", None, 0),
    ];
    let palettes = ward_palettes(&wards);
    let get = |id: &str| {
        palettes
            .iter()
            .rev()
            .find(|(ward, _)| ward == id)
            .map(|(_, colours)| colours.0)
            .unwrap()
    };

    let parent = get("ward-0");
    let child = get("ward-1");
    let stranger = get("ward-2");

    for channel in 0..3 {
        assert!(
            child[channel] >= parent[channel],
            "channel {channel} darkened instead of lightening"
        );
    }
    assert_ne!(
        (parent[0], parent[1], parent[2]),
        (stranger[0], stranger[1], stranger[2]),
        "unrelated wards should not share a tint"
    );
    // The child is its parent's colour one step paler.
    assert_eq!(child, ward_palette(stable_hash("src"), 1).0);
}

#[test]
fn ward_colours_have_exact_values() {
    // Hue 0: the base tones themselves at depth zero.
    let (ground, edge) = ward_palette(0, 0);
    assert_eq!(ground, [66, 84, 50, 255]);
    assert_eq!(edge, [44, 53, 36, 255]);
    // Past five levels nothing gets paler.
    assert_eq!(ward_palette(7, 5), ward_palette(7, 9));
    // Hue 22 at depth 5: (23*66 + 22*22) * 5 + 69*5*188 over 460, and so on.
    let (ground, _) = ward_palette(22, 5);
    assert_eq!(ground[0] as u32, ((23 * 66 + 22 * 22) * 5 + 69 * 5 * 188) / 460);
    assert_eq!(ground[1] as u32, ((23 * 84 + 14 * 22) * 5 + 69 * 5 * 192) / 460);
    assert_eq!(ground[2] as u32, ((23 * 50 + 20 * 22) * 5 + 69 * 5 * 150) / 460);
}

#[test]
fn a_ward_missing_its_parent_is_its_own_family() {
    let wards = vec![ward("ward-1", "engine", Some("ward-9"), 1)];
    let palettes = ward_palettes(&wards);
    assert_eq!(palettes[0].0, "ward-1");
    assert_eq!(palettes[0].1, ward_palette(stable_hash("engine"), 1));
}

#[test]
fn a_name_is_lightened_from_its_kerb() {
    assert_eq!(label_ink([0, 0, 0, 255]), [168, 166, 140, 255]);
    assert_eq!(label_ink([100, 40, 20, 255]), [203, 180, 147, 255]);
    // Never past white.
    assert_eq!(label_ink([255, 255, 255, 0]), [255, 255, 229, 255]);
}

#[test]
fn names_are_painted_in_capitals() {
    assert_eq!(shout("src"), "SRC");
    assert_eq!(shout("  viewer-ui \n"), "VIEWER-UI");
    assert_eq!(shout("straße"), "STRASSE");
}

fn sized(id: &str, depth: usize, files: usize) -> WardFamily {
    WardFamily {
        id: id.to_owned(),
        depth,
        parent: None,
        seed: 0,
        files,
    }
}

#[test]
fn shallow_and_large_folders_are_named_first() {
    let wards = vec![
        sized("ward-0", 1, 50),
        sized("ward-1", 0, 3),
        sized("ward-2", 1, 80),
        sized("ward-3", 5, 999),
        sized("ward-4", 0, 3),
        sized("ward-5", 4, 1),
    ];
    // Depth first, then more files, then identifier; the folder five deep
    // is never named.
    assert_eq!(label_order(&wards), vec![1, 4, 2, 0, 5]);
}

#[test]
fn a_name_is_inked_from_its_own_kerb() {
    let wards = vec![ward("ward-0", "src", None, 0), ward("ward-0", "docs", None, 1)];
    let palettes = ward_palettes(&wards);
    // The later entry for a ward is the one its name is painted from.
    assert_eq!(
        label_colour(&palettes, "ward-0"),
        label_ink(ward_palette(stable_hash("docs"), 1).1)
    );
    assert_eq!(label_colour(&palettes, "ward-9"), [236, 228, 204, 255]);
}
