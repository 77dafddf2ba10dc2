use cloth_sim::partition::partition_ranges;
use cloth_sim::physics::{relax_instance, select_hits, FlagParams, Kinematics, Link, Node, Physics};
use glam::{vec2, Vec2};

const WIDTH: f32 = 1500.0;
const HEIGHT: f32 = 1500.0;

struct Plane {
    gravity: Vec2,
    dt: f32,
}

impl Kinematics<Vec2, f32> for Plane {
    // The operations below are pure, so each is its own specification.
    fn place_spec(&self, corner: Vec2, size: f32, width: usize, x: usize, y: usize) -> Vec2 {
        self.place(&corner, &size, width, x, y)
    }

    fn distance_spec(&self, a: Vec2, b: Vec2) -> f32 {
        self.distance(&a, &b)
    }

    fn advance_spec(&self, pos: Vec2, last_pos: Vec2) -> Vec2 {
        self.advance(&pos, &last_pos)
    }

    fn confine_spec(&self, pos: Vec2) -> Vec2 {
        self.confine(&pos)
    }

    fn correction_spec(&self, a: Vec2, b: Vec2, resting: f32) -> Vec2 {
        self.correction(&a, &b, &resting)
    }

    fn shift_spec(&self, p: Vec2, n: Vec2) -> Vec2 {
        self.shift(&p, &n)
    }

    fn unshift_spec(&self, p: Vec2, n: Vec2) -> Vec2 {
        self.unshift(&p, &n)
    }

    fn picks_spec(&self, node: Vec2, cursor: Vec2) -> bool {
        self.picks(&node, &cursor)
    }

    fn repel_spec(&self, pos: Vec2, center: Vec2, size: f32) -> Vec2 {
        self.repel(&pos, &center, &size)
    }

    fn place(&self, corner: &Vec2, size: &f32, width: usize, x: usize, y: usize) -> Vec2 {
        vec2(x as f32, y as f32) * (*size / width as f32) + *corner
    }

    fn distance(&self, a: &Vec2, b: &Vec2) -> f32 {
        a.distance(*b)
    }

    fn advance(&self, pos: &Vec2, last_pos: &Vec2) -> Vec2 {
        let diff = *pos - *last_pos;
        *pos + (diff + self.gravity * (self.dt * self.dt)).clamp_length_max(50.0)
    }

    fn confine(&self, pos: &Vec2) -> Vec2 {
        let factor = 0.75;
        let mut p = *pos;
        if p.x > WIDTH {
            p.x += factor * (WIDTH - p.x);
        }
        if p.x < 0.0 {
            p.x -= factor * p.x;
        }
        if p.y > HEIGHT {
            p.y += factor * (HEIGHT - p.y);
        }
        if p.y < 0.0 {
            p.y -= factor * p.y;
        }
        p
    }

    fn correction(&self, a: &Vec2, b: &Vec2, resting: &f32) -> Vec2 {
        let diff = *a - *b;
        let dist = diff.length();
        diff * ((resting - dist) / dist * 0.5).min(0.001)
    }

    fn shift(&self, p: &Vec2, n: &Vec2) -> Vec2 {
        *p + *n
    }

    fn unshift(&self, p: &Vec2, n: &Vec2) -> Vec2 {
        *p - *n
    }

    fn picks(&self, node: &Vec2, cursor: &Vec2) -> bool {
        let radius = 10.0;
        node.distance_squared(*cursor) < radius * radius
    }

    fn repel(&self, pos: &Vec2, center: &Vec2, size: &f32) -> Vec2 {
        let v = *pos - *center;
        let dist2 = v.length_squared();
        if dist2 < size * size {
            let dist = dist2.sqrt();
            *pos - v / dist * 0.1 * (dist - size)
        } else {
            *pos
        }
    }
}

fn plane(gx: f32, gy: f32) -> Plane {
    Plane { gravity: vec2(gx, gy), dt: 1.0 / 600.0 }
}

fn params(cx: f32, cy: f32, size: f32, width: usize, height: usize) -> FlagParams<Vec2, f32> {
    FlagParams { size, corner: vec2(cx, cy), width, height }
}

#[test]
fn single_instance_grid_shape() {
    let k = plane(0.0, 0.0);
    let p = Physics::new(&k, &vec![params(0.0, 0.0, 30.0, 4, 3)]);
    assert_eq!(p.nodes().len(), 12);
    assert_eq!(p.num_links(), 17);
    let pinned: Vec<usize> = (0..12).filter(|&i| p.nodes()[i].pinned).collect();
    assert_eq!(pinned, vec![0, 8]);
    assert_eq!(p.nodes()[8].pos, vec2(0.0, 15.0));
    assert_eq!(p.nodes()[5].pos, vec2(7.5, 7.5));
    assert_eq!(p.nodes()[5].pos, p.nodes()[5].last_pos);
    assert!(p.selection().is_none());
}

#[test]
fn link_order_and_indices() {
    let k = plane(0.0, 0.0);
    let p = Physics::new(&k, &vec![params(0.0, 0.0, 10.0, 2, 2), params(50.0, 50.0, 10.0, 3, 1)]);
    // 2x2: horizontals (0,1) (2,3), verticals (0,2) (1,3); 3x1 offset by 4: (4,5) (5,6).
    assert_eq!(p.get_indices(), vec![0, 1, 2, 3, 0, 2, 1, 3, 4, 5, 5, 6]);
    assert_eq!(p.num_links(), 6);
    let f = &p.flags()[1];
    assert_eq!((f.links[1].node1, f.links[1].node2), (1, 2));
    assert_eq!((f.offset_links[1].node1, f.offset_links[1].node2), (5, 6));
}

#[test]
fn two_instance_ranges() {
    assert_eq!(partition_ranges(&vec![6, 4]), vec![(0, 6), (6, 10)]);
    let k = plane(0.0, 0.0);
    let p = Physics::new(&k, &vec![params(0.0, 0.0, 30.0, 3, 2), params(100.0, 0.0, 30.0, 2, 2)]);
    assert_eq!(p.nodes().len(), 10);
    assert_eq!(p.ranges(), &vec![(0, 6), (6, 10)]);
    assert!(p.nodes()[6].pinned && p.nodes()[8].pinned && p.nodes()[0].pinned && p.nodes()[3].pinned);
    assert!(!p.nodes()[7].pinned && !p.nodes()[9].pinned);
}

#[test]
fn ranges_tile_the_store() {
    let counts = vec![3, 0, 7, 1, 12];
    let r = partition_ranges(&counts);
    assert_eq!(r.len(), counts.len());
    assert_eq!(r[0].0, 0);
    for i in 0..r.len() {
        assert_eq!(r[i].1 - r[i].0, counts[i]);
        if i + 1 < r.len() {
            assert_eq!(r[i].1, r[i + 1].0);
        }
    }
    assert_eq!(r[r.len() - 1].1, 23);
    assert!(partition_ranges(&vec![]).is_empty());
}

#[test]
fn resting_length_is_initial_distance() {
    let k = plane(0.0, 0.0);
    let p = Physics::new(&k, &vec![params(10.0, 20.0, 90.0, 5, 4), params(300.0, 300.0, 12.0, 3, 3)]);
    for f in p.flags() {
        for l in &f.offset_links {
            let d = p.nodes()[l.node1].pos.distance(p.nodes()[l.node2].pos);
            assert_eq!(l.resting_distance, d);
        }
    }
    assert_eq!(p.flags()[0].links[0].resting_distance, 18.0);
}

#[test]
fn pinned_particles_stay_put() {
    let k = plane(200.0, 50.0);
    let mut p = Physics::new(&k, &vec![params(100.0, 100.0, 100.0, 6, 5)]);
    let before: Vec<Vec2> = p.get_points();
    for _ in 0..200 {
        p.step(&k);
    }
    let after = p.get_points();
    for i in 0..after.len() {
        if p.nodes()[i].pinned {
            assert_eq!(after[i], before[i]);
        }
    }
    assert_ne!(after[29], before[29]);
}

#[test]
fn out_of_bounds_particle_comes_back() {
    let k = plane(0.0, 0.0);
    let mut p = Physics::new(&k, &vec![params(1490.0, 100.0, 40.0, 2, 1)]);
    let overshoot = |p: &Physics<Vec2, f32>| (p.nodes()[1].pos.x - WIDTH).max(0.0);
    let mut last = overshoot(&p);
    assert_eq!(last, 10.0);
    for _ in 0..3 {
        p.step(&k);
        let now = overshoot(&p);
        assert!(now <= last);
        last = now;
    }
    assert_eq!(last, 0.0);
}

#[test]
fn missed_pick_clears_selection_and_drag_is_noop() {
    let k = plane(0.0, 0.0);
    let mut p = Physics::new(&k, &vec![params(100.0, 100.0, 40.0, 3, 3)]);
    p.select_nodes(&k, &vec2(101.0, 101.0));
    assert_eq!(p.selection(), Some(&vec![0]));
    p.select_nodes(&k, &vec2(900.0, 900.0));
    assert!(p.selection().is_none());
    let before = p.get_points();
    p.move_selected_nodes(vec2(5.0, 5.0));
    assert_eq!(p.get_points(), before);
}

#[test]
fn drag_moves_selected_even_when_pinned() {
    let k = plane(0.0, 0.0);
    let mut p = Physics::new(&k, &vec![params(100.0, 100.0, 4.0, 2, 2)]);
    p.select_nodes(&k, &vec2(101.0, 101.0));
    assert_eq!(p.selection(), Some(&vec![0, 1, 2, 3]));
    let last0 = p.nodes()[0].last_pos;
    p.move_selected_nodes(vec2(300.0, 400.0));
    for n in p.nodes() {
        assert_eq!(n.pos, vec2(300.0, 400.0));
    }
    assert_eq!(p.nodes()[0].last_pos, last0);
    assert!(p.nodes()[0].pinned);
}

#[test]
fn hits_to_selection() {
    assert_eq!(select_hits(&vec![false, true, false, true]), Some(vec![1, 3]));
    assert_eq!(select_hits(&vec![false, false]), None);
    assert_eq!(select_hits(&vec![]), None);
}

#[test]
fn correction_is_equal_and_opposite() {
    let k = plane(0.0, 0.0);
    let at = |x: f32| Node { pos: vec2(x, 0.0), last_pos: vec2(x, 0.0), pinned: false };
    let mut nodes = vec![at(0.0), at(10.0)];
    let links = vec![Link { node1: 0, node2: 1, resting_distance: 20.0 }];
    relax_instance(&k, &mut nodes, &links);
    let da = nodes[0].pos - vec2(0.0, 0.0);
    let db = nodes[1].pos - vec2(10.0, 0.0);
    // Same size, opposite direction, up to the rounding of the two sums.
    assert!((da + db).length() < 1e-6);
    assert!((da - vec2(-0.01, 0.0)).length() < 1e-6);
    assert!(da.length() > 0.009);
    assert_eq!(nodes[0].last_pos, vec2(0.0, 0.0));
}

#[test]
fn pinned_endpoint_gets_no_correction() {
    let k = plane(0.0, 0.0);
    let mut nodes = vec![
        Node { pos: vec2(0.0, 0.0), last_pos: vec2(0.0, 0.0), pinned: true },
        Node { pos: vec2(10.0, 0.0), last_pos: vec2(10.0, 0.0), pinned: false },
    ];
    let links = vec![Link { node1: 0, node2: 1, resting_distance: 20.0 }];
    relax_instance(&k, &mut nodes, &links);
    assert_eq!(nodes[0].pos, vec2(0.0, 0.0));
    assert!((nodes[1].pos - vec2(10.01, 0.0)).length() < 1e-5);
}

#[test]
fn obstacle_pushes_free_particles_only() {
    let k = plane(0.0, 0.0);
    let mut p = Physics::new(&k, &vec![params(100.0, 100.0, 20.0, 2, 2)]);
    let before = p.get_points();
    // Node 1 sits at (110, 100), 5 from the centre, inside a radius of 10.
    p.avoid_obstacle(&k, &vec2(105.0, 100.0), &10.0);
    let after = p.get_points();
    assert_eq!(after[0], before[0]);
    assert_eq!(after[2], before[2]);
    assert_eq!(after[1], vec2(110.5, 100.0));
    assert_eq!(after[3], before[3]);
}

#[test]
fn frame_runs_sub_steps_then_drags() {
    let k = plane(200.0, 50.0);
    let params_list = vec![params(100.0, 100.0, 40.0, 3, 3)];
    let mut stepped = Physics::new(&k, &params_list);
    for _ in 0..10 {
        stepped.step(&k);
    }
    let mut framed = Physics::new(&k, &params_list);
    framed.frame(&k, 10, false, vec2(0.0, 0.0));
    assert_eq!(framed.get_points(), stepped.get_points());

    framed.select_nodes(&k, &framed.get_points()[4].clone());
    assert_eq!(framed.selection(), Some(&vec![4]));
    framed.frame(&k, 1, true, vec2(700.0, 700.0));
    assert_eq!(framed.nodes()[4].pos, vec2(700.0, 700.0));
}
