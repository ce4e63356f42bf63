use skelform::armature::{
    check_forest, create_bone, delete_bone, drop_bone, find_bone, find_bone_idx, generate_id, get_all_children,
    move_bone, parent_slots, Armature, Bone, NO_TEXTURE, ROOT,
};

fn store(parents: &[i32]) -> Vec<Bone<u32>> {
    let mut bones: Vec<Bone<u32>> = Vec::new();
    for (i, p) in parents.iter().enumerate() {
        create_bone(&mut bones, i as u32);
        bones[i].parent_id = *p;
    }
    bones
}

fn ids(bones: &Vec<Bone<u32>>) -> Vec<i32> {
    bones.iter().map(|b| b.id).collect()
}

fn parents(bones: &Vec<Bone<u32>>) -> Vec<i32> {
    bones.iter().map(|b| b.parent_id).collect()
}

#[test]
fn create_bone_appends_default_roots() {
    let mut bones: Vec<Bone<u32>> = Vec::new();
    create_bone(&mut bones, 7);
    create_bone(&mut bones, 8);
    create_bone(&mut bones, 9);
    assert_eq!(ids(&bones), vec![0, 1, 2]);
    assert_eq!(parents(&bones), vec![ROOT, ROOT, ROOT]);
    assert_eq!(bones[0].name, "bone0");
    assert_eq!(bones[2].name, "bone2");
    assert_eq!(bones[1].tex.idx, NO_TEXTURE);
    assert_eq!(bones[2].pose, 9);
}

#[test]
fn create_bone_names_past_nine() {
    let mut bones: Vec<Bone<u32>> = Vec::new();
    for i in 0..12 {
        create_bone(&mut bones, i);
    }
    assert_eq!(bones[10].name, "bone10");
    assert_eq!(bones[11].name, "bone11");
}

#[test]
fn generate_id_takes_smallest_free() {
    let mut bones = store(&[ROOT, ROOT, ROOT]);
    assert_eq!(generate_id(&bones), 3);
    delete_bone(&mut bones, 1);
    assert_eq!(ids(&bones), vec![0, 2]);
    assert_eq!(generate_id(&bones), 1);
    create_bone(&mut bones, 0);
    assert_eq!(ids(&bones), vec![0, 2, 1]);
    assert_eq!(generate_id(&bones), 3);
    let empty: Vec<Bone<u32>> = Vec::new();
    assert_eq!(generate_id(&empty), 0);
}

#[test]
fn ids_stay_distinct_after_creates_and_deletes() {
    let mut bones = store(&[ROOT, ROOT, ROOT, ROOT]);
    delete_bone(&mut bones, 0);
    delete_bone(&mut bones, 1);
    create_bone(&mut bones, 0);
    create_bone(&mut bones, 0);
    create_bone(&mut bones, 0);
    let mut seen = ids(&bones);
    seen.sort();
    assert_eq!(seen, vec![0, 1, 2, 3, 4]);
}

#[test]
fn find_by_id() {
    let mut bones = store(&[ROOT, ROOT, ROOT]);
    delete_bone(&mut bones, 0);
    assert_eq!(find_bone_idx(&bones, 2), 1);
    assert_eq!(find_bone_idx(&bones, 0), -1);
    assert_eq!(find_bone(&bones, 1).map(|b| b.pose), Some(1));
    assert!(find_bone(&bones, 5).is_none());
    let empty: Vec<Bone<u32>> = Vec::new();
    assert_eq!(find_bone_idx(&empty, 0), -1);
}

#[test]
fn children_in_pre_order() {
    // 0 ─ 1 ─ 2
    //   └ 3
    // 4
    let bones = store(&[ROOT, 0, 1, 0, ROOT]);
    let mut out = Vec::new();
    get_all_children(&bones, &mut out, 0);
    assert_eq!(out, vec![1, 2, 3]);
    let mut out = vec![99];
    get_all_children(&bones, &mut out, 1);
    assert_eq!(out, vec![99, 2]);
    let mut out = Vec::new();
    get_all_children(&bones, &mut out, 4);
    assert!(out.is_empty());
    let mut out = Vec::new();
    get_all_children(&bones, &mut out, 42);
    assert!(out.is_empty());
}

#[test]
fn move_bone_carries_subtree() {
    let mut bones = store(&[ROOT, 0, 1, ROOT]);
    move_bone(&mut bones, 0, 3, true);
    assert_eq!(ids(&bones), vec![3, 0, 1, 2]);
    let mut bones = store(&[ROOT, 0, 1, ROOT]);
    move_bone(&mut bones, 0, 3, false);
    assert_eq!(ids(&bones), vec![0, 1, 2, 3]);
    let mut bones = store(&[ROOT, ROOT, 1, 2]);
    move_bone(&mut bones, 1, 0, false);
    assert_eq!(ids(&bones), vec![1, 2, 3, 0]);
}

#[test]
fn drop_leaf_on_root_lower_half() {
    let mut bones = store(&[ROOT, 0, 1]);
    drop_bone(&mut bones, 2, 0, false);
    assert_eq!(ids(&bones), vec![0, 2, 1]);
    assert_eq!(parents(&bones), vec![ROOT, 0, 0]);
}

#[test]
fn drop_subtree_on_sibling_upper_half() {
    // root, sibling, mid, leaf: mid carries leaf to just before sibling
    let mut bones = store(&[ROOT, 0, 0, 2]);
    drop_bone(&mut bones, 2, 1, true);
    assert_eq!(ids(&bones), vec![0, 2, 3, 1]);
    assert_eq!(parents(&bones), vec![ROOT, 0, 2, 0]);
}

#[test]
fn drop_on_root_upper_half_makes_root() {
    let mut bones = store(&[ROOT, 0, 1, ROOT]);
    drop_bone(&mut bones, 1, 3, true);
    assert_eq!(ids(&bones), vec![0, 1, 2, 3]);
    assert_eq!(parents(&bones), vec![ROOT, ROOT, 1, ROOT]);
}

#[test]
fn drop_later_subtree_as_child_of_earlier_leaf() {
    let mut bones = store(&[ROOT, 0, ROOT, 2]);
    drop_bone(&mut bones, 2, 1, false);
    assert_eq!(ids(&bones), vec![0, 1, 2, 3]);
    assert_eq!(parents(&bones), vec![ROOT, 0, 1, 2]);
}

#[test]
fn drop_into_own_subtree_changes_nothing() {
    let mut bones = store(&[ROOT, 0, 1, 0]);
    drop_bone(&mut bones, 0, 2, false);
    drop_bone(&mut bones, 0, 3, true);
    drop_bone(&mut bones, 1, 2, true);
    drop_bone(&mut bones, 1, 1, false);
    assert_eq!(ids(&bones), vec![0, 1, 2, 3]);
    assert_eq!(parents(&bones), vec![ROOT, 0, 1, 0]);
}

#[test]
fn delete_leaves_orphans() {
    let mut bones = store(&[ROOT, 0, 1]);
    delete_bone(&mut bones, 1);
    assert_eq!(ids(&bones), vec![0, 2]);
    assert_eq!(parents(&bones), vec![ROOT, 1]);
}

#[test]
fn armature_starts_empty() {
    let a: Armature<u32> = Armature::new();
    assert!(a.bones.is_empty());
}

#[test]
fn check_forest_accepts_pre_order() {
    assert!(check_forest(&store(&[])));
    assert!(check_forest(&store(&[ROOT, 0, 1, 0, ROOT, 4])));
}

#[test]
fn check_forest_rejects_broken_stores() {
    // parent listed after its child
    let mut bones = store(&[ROOT, ROOT]);
    bones[0].parent_id = 1;
    assert!(!check_forest(&bones));
    // a sibling subtree interrupted by a root
    assert!(!check_forest(&store(&[ROOT, 0, ROOT, 0])));
    // dangling parent after a delete
    let mut bones = store(&[ROOT, 0, 1]);
    delete_bone(&mut bones, 1);
    assert!(!check_forest(&bones));
    // a child of an earlier sibling's subtree after a deeper bone
    assert!(!check_forest(&store(&[ROOT, 0, 1, 1, 0, 2])));
    // duplicate and negative ids
    let mut bones = store(&[ROOT, ROOT]);
    bones[1].id = 0;
    assert!(!check_forest(&bones));
    let mut bones = store(&[ROOT]);
    bones[0].id = -3;
    assert!(!check_forest(&bones));
}

#[test]
fn random_edits_keep_the_forest() {
    let mut seed: u64 = 12345;
    let mut next = |m: usize| -> usize {
        seed = seed.wrapping_mul(6364136223846793005).wrapping_add(1442695040888963407);
        ((seed >> 33) as usize) % m
    };
    let mut bones: Vec<Bone<u32>> = Vec::new();
    for step in 0..400 {
        let op = next(4);
        if op == 0 || bones.len() < 2 {
            create_bone(&mut bones, step);
        } else if op == 1 {
            let i = next(bones.len());
            let id = bones[i].id;
            if bones.iter().all(|b| b.parent_id != id) {
                delete_bone(&mut bones, i);
            }
        } else {
            let a = next(bones.len());
            let b = next(bones.len());
            let before: Vec<(i32, i32)> = bones.iter().map(|x| (x.id, x.parent_id)).collect();
            let mut below = Vec::new();
            get_all_children(&bones, &mut below, bones[a].id);
            drop_bone(&mut bones, a, b, next(2) == 0);
            let after: Vec<(i32, i32)> = bones.iter().map(|x| (x.id, x.parent_id)).collect();
            if a == b || below.contains(&before[b].0) {
                assert_eq!(before, after);
            }
        }
        assert!(check_forest(&bones));
        let mut seen: Vec<i32> = bones.iter().map(|b| b.id).collect();
        seen.sort();
        seen.dedup();
        assert_eq!(seen.len(), bones.len());
    }
}

#[test]
fn parent_slots_point_back() {
    let bones = store(&[ROOT, 0, 1, 0, ROOT]);
    assert_eq!(parent_slots(&bones), vec![-1, 0, 1, 0, -1]);
    let mut bones = store(&[ROOT, 0, 1]);
    delete_bone(&mut bones, 1);
    assert_eq!(parent_slots(&bones), vec![-1, -1]);
    // a parent listed later is not found
    let mut bones = store(&[ROOT, ROOT]);
    bones[0].parent_id = 1;
    assert_eq!(parent_slots(&bones), vec![-1, -1]);
    let empty: Vec<Bone<u32>> = Vec::new();
    assert!(parent_slots(&empty).is_empty());
}
