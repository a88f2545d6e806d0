use dungeon_core::cell::{Cell, Direction};
use dungeon_core::chest::{Chest, ChestContent};
use dungeon_core::dungeon::{is_adjacent, manhattan, room_exit_dirs, room_exits, Dungeon};
use dungeon_core::entity::Entity;
use dungeon_core::error::GameError;
use dungeon_core::maze::{exit_from_name, Maze};
use dungeon_core::pathfinding::astar;
use dungeon_core::player::Player;
use rand::rngs::StdRng;
use rand::SeedableRng;
use std::collections::VecDeque;

fn player_at(x: usize, y: usize) -> Entity {
    Entity::new(x, y, 10, 0, 1, 0, true)
}

fn reachable_count(m: &Maze) -> usize {
    let mut seen = vec![vec![false; m.width]; m.height];
    let mut queue = VecDeque::new();
    seen[0][0] = true;
    queue.push_back((0usize, 0usize));
    let mut count = 0;
    while let Some((r, c)) = queue.pop_front() {
        count += 1;
        let cell = m.grid[r][c];
        let mut next = Vec::new();
        if r > 0 && !cell.walls[0] {
            next.push((r - 1, c));
        }
        if c + 1 < m.width && !cell.walls[1] {
            next.push((r, c + 1));
        }
        if r + 1 < m.height && !cell.walls[2] {
            next.push((r + 1, c));
        }
        if c > 0 && !cell.walls[3] {
            next.push((r, c - 1));
        }
        for (nr, nc) in next {
            if !seen[nr][nc] {
                seen[nr][nc] = true;
                queue.push_back((nr, nc));
            }
        }
    }
    count
}

fn symmetric(m: &Maze) -> bool {
    for r in 0..m.height {
        for c in 0..m.width {
            if c + 1 < m.width && m.grid[r][c].walls[1] != m.grid[r][c + 1].walls[3] {
                return false;
            }
            if r + 1 < m.height && m.grid[r][c].walls[2] != m.grid[r + 1][c].walls[0] {
                return false;
            }
        }
    }
    true
}

fn open_maze(w: usize, h: usize) -> Maze {
    let mut m = Maze::new(w, h);
    for r in 0..h {
        for c in 0..w {
            if c + 1 < w {
                m.remove_wall(r, c, 1).unwrap();
                m.remove_wall(r, c + 1, 3).unwrap();
            }
            if r + 1 < h {
                m.remove_wall(r, c, 2).unwrap();
                m.remove_wall(r + 1, c, 0).unwrap();
            }
        }
    }
    m
}

#[test]
fn cell_walls_and_visit() {
    let mut c = Cell::new();
    assert!(c.has_wall(Direction::Top) && c.has_wall(Direction::Left));
    assert!(!c.visited);
    c.remove_wall(Direction::Right);
    assert!(!c.has_wall(Direction::Right));
    assert!(c.has_wall(Direction::Bottom));
    c.set_visited();
    assert!(c.visited);
    assert_eq!(Direction::Left.index(), 3);
    assert_eq!(Direction::Top.opposite(), Direction::Bottom);
    assert_eq!(Direction::from_index(4), None);
}

#[test]
fn generated_mazes_are_connected() {
    let mut rng = StdRng::seed_from_u64(7);
    for (w, h) in [(1, 1), (1, 6), (6, 1), (5, 5), (8, 3), (12, 9)] {
        let mut m = Maze::new(w, h);
        assert_eq!(m.generate_maze(&mut rng, None), Ok(()));
        assert_eq!(reachable_count(&m), w * h);
    }
}

#[test]
fn generated_walls_are_symmetric() {
    let mut rng = StdRng::seed_from_u64(11);
    for (w, h) in [(2, 2), (5, 5), (7, 4)] {
        let mut m = Maze::new(w, h);
        m.generate_maze(&mut rng, Some(vec!["top".to_string(), "left".to_string()])).unwrap();
        assert!(symmetric(&m));
        // Requested exits are open at the edge midpoints, others stay shut.
        assert!(!m.grid[0][w / 2].walls[0]);
        assert!(!m.grid[h / 2][0].walls[3]);
        assert!(m.grid[h - 1][w / 2].walls[2]);
        assert!(m.grid[h / 2][w - 1].walls[1]);
    }
}

#[test]
fn unknown_exit_name_is_rejected() {
    let mut rng = StdRng::seed_from_u64(3);
    let mut m = Maze::new(3, 3);
    let r = m.generate_maze(&mut rng, Some(vec!["top".to_string(), "north".to_string()]));
    assert_eq!(r, Err(GameError::InvalidArgument));
    assert_eq!(reachable_count(&m), 1);
    assert_eq!(exit_from_name("bottom"), Some(Direction::Bottom));
    assert_eq!(exit_from_name("up"), None);
}

#[test]
fn exit_table_three_by_three() {
    assert_eq!(room_exit_dirs(0, 0, 3, 3), vec![Direction::Left, Direction::Bottom, Direction::Right]);
    assert_eq!(room_exit_dirs(0, 2, 3, 3), vec![Direction::Right, Direction::Bottom, Direction::Left]);
    assert_eq!(room_exit_dirs(2, 0, 3, 3), vec![Direction::Left, Direction::Top, Direction::Right]);
    assert_eq!(room_exit_dirs(2, 2, 3, 3), vec![Direction::Right, Direction::Top, Direction::Left]);
    assert_eq!(room_exit_dirs(0, 1, 3, 3), vec![Direction::Left, Direction::Right, Direction::Bottom]);
    assert_eq!(room_exit_dirs(2, 1, 3, 3), vec![Direction::Left, Direction::Right, Direction::Top]);
    assert_eq!(room_exit_dirs(1, 0, 3, 3), vec![Direction::Top, Direction::Bottom, Direction::Right]);
    assert_eq!(room_exit_dirs(1, 2, 3, 3), vec![Direction::Top, Direction::Bottom, Direction::Left]);
    assert_eq!(room_exit_dirs(1, 1, 3, 3), vec![Direction::Top, Direction::Bottom, Direction::Left, Direction::Right]);
    assert_eq!(room_exits(0, 0, 3, 3), vec!["left".to_string(), "bottom".to_string(), "right".to_string()]);
}

#[test]
fn dungeon_rooms_have_table_exits() {
    let mut rng = StdRng::seed_from_u64(5);
    let d = Dungeon::new(&mut rng, 3, 3, 5, 5, player_at(2, 2));
    assert_eq!((d.current_room_row, d.current_room_col), (1, 1));
    assert!(d.enemies.is_empty());
    let corner = &d.mazes[0][0];
    assert!(!corner.grid[2][0].walls[3]);
    assert!(!corner.grid[4][2].walls[2]);
    assert!(!corner.grid[2][4].walls[1]);
    assert!(corner.grid[0][2].walls[0]);
    let centre = &d.mazes[1][1];
    assert!(!centre.grid[0][2].walls[0] && !centre.grid[4][2].walls[2]);
    assert!(!centre.grid[2][0].walls[3] && !centre.grid[2][4].walls[1]);
    for r in 0..3 {
        for c in 0..3 {
            assert_eq!(reachable_count(&d.mazes[r][c]), 25);
            assert!(symmetric(&d.mazes[r][c]));
        }
    }
}

#[test]
fn wall_blocks_movement() {
    let mut rng = StdRng::seed_from_u64(9);
    let mut d = Dungeon::new(&mut rng, 3, 3, 5, 5, player_at(2, 2));
    d.mazes[1][1].grid[2][2].walls[0] = true;
    let before = d.player;
    assert_eq!(d.move_player(&mut rng, "up"), Ok(false));
    assert_eq!(d.player, before);
    assert_eq!((d.current_room_row, d.current_room_col), (1, 1));
}

#[test]
fn open_wall_allows_movement() {
    let mut rng = StdRng::seed_from_u64(9);
    let mut d = Dungeon::new(&mut rng, 3, 3, 5, 5, player_at(2, 2));
    d.mazes[1][1].grid[2][2].walls[1] = false;
    d.mazes[1][1].grid[2][3].walls[3] = false;
    assert_eq!(d.move_player(&mut rng, "right"), Ok(true));
    assert_eq!((d.player.x, d.player.y), (3, 2));
}

#[test]
fn invalid_direction_is_rejected() {
    let mut rng = StdRng::seed_from_u64(1);
    let mut d = Dungeon::new(&mut rng, 3, 3, 5, 5, player_at(2, 2));
    assert_eq!(d.move_player(&mut rng, "north"), Err(GameError::InvalidArgument));
    assert_eq!((d.player.x, d.player.y), (2, 2));
}

#[test]
fn moving_up_through_exit_changes_room() {
    let mut rng = StdRng::seed_from_u64(2);
    let mut d = Dungeon::new(&mut rng, 3, 3, 5, 5, player_at(2, 0));
    assert!(!d.mazes[1][1].grid[0][2].walls[0]);
    assert_eq!(d.move_player(&mut rng, "up"), Ok(true));
    assert_eq!((d.current_room_row, d.current_room_col), (0, 1));
    assert_eq!((d.player.x, d.player.y), (2, 4));
    assert_eq!(d.enemies.len(), 3);
    for e in &d.enemies {
        assert!(e.x != 2 || e.y != 4);
        assert_eq!((e.health, e.attack), (4, 1));
    }
}

#[test]
fn attack_moves_into_enemy() {
    let mut rng = StdRng::seed_from_u64(4);
    let mut d = Dungeon::new(&mut rng, 3, 3, 5, 5, Entity::new(2, 2, 10, 0, 3, 0, true));
    d.enemies.push(Entity::new(3, 2, 3, 0, 1, 0, false));
    assert_eq!(d.move_player(&mut rng, "right"), Ok(true));
    assert_eq!((d.player.x, d.player.y), (2, 2));
    assert!(d.enemies.is_empty());
}

#[test]
fn damage_is_reduced_by_armor() {
    let mut e = Entity::new(0, 0, 10, 2, 1, 0, false);
    e.take_damage(5);
    assert_eq!(e.health, 7);
    e.take_damage(2);
    assert_eq!(e.health, 7);
    e.take_damage(1);
    assert_eq!(e.health, 7);
    let mut low = Entity::new(0, 0, i32::MIN + 1, 0, 1, 0, false);
    low.take_damage(5);
    assert_eq!(low.health, i32::MIN);
}

#[test]
fn entity_moves() {
    let mut e = Entity::new(1, 1, 5, 0, 1, 0, false);
    e.move_to(3, 4);
    assert_eq!((e.x, e.y), (3, 4));
    e.set_position(0, 2);
    assert_eq!((e.x, e.y, e.health), (0, 2, 5));
    let mut p = Player::new(1, 2, 9);
    p.move_to(4, 4);
    assert_eq!(p, Player::new(4, 4, 9));
}

#[test]
fn spawn_scales_with_distance() {
    let mut rng = StdRng::seed_from_u64(6);
    let mut d = Dungeon::new(&mut rng, 5, 5, 4, 4, player_at(0, 0));
    d.current_room_row = 0;
    d.current_room_col = 2;
    d.spawn_enemies(&mut rng, 4);
    assert_eq!(d.enemies.len(), 4);
    for e in &d.enemies {
        assert_eq!((e.health, e.attack, e.armor, e.gold, e.is_player), (5, 2, 0, 0, false));
        assert!(e.x != 0 || e.y != 0);
        assert!(e.x < 4 && e.y < 4);
    }
}

#[test]
fn single_cell_room_spawns_nothing() {
    let mut rng = StdRng::seed_from_u64(6);
    let mut d = Dungeon::new(&mut rng, 1, 1, 1, 1, player_at(0, 0));
    d.spawn_enemies(&mut rng, 3);
    assert!(d.enemies.is_empty());
}

#[test]
fn astar_on_open_grid_is_shortest() {
    let m = open_maze(5, 5);
    let path = astar(&m, (0, 0), (4, 4)).unwrap();
    assert_eq!(path.len() - 1, 8);
    assert_eq!(path[0], (0, 0));
    assert_eq!(path[8], (4, 4));
    assert_eq!(astar(&m, (2, 3), (2, 3)), Some(vec![(2, 3)]));
}

#[test]
fn astar_without_route_finds_none() {
    let m = Maze::new(3, 3);
    assert_eq!(astar(&m, (0, 0), (2, 2)), None);
}

#[test]
fn enemies_do_not_share_cells() {
    let mut rng = StdRng::seed_from_u64(8);
    let mut d = Dungeon::new(&mut rng, 1, 1, 5, 5, player_at(4, 4));
    d.mazes[0][0] = open_maze(5, 5);
    d.enemies.push(Entity::new(0, 0, 3, 0, 1, 0, false));
    d.enemies.push(Entity::new(1, 1, 3, 0, 1, 0, false));
    d.enemies.push(Entity::new(0, 4, 3, 0, 1, 0, false));
    for _ in 0..4 {
        d.move_enemies();
        for i in 0..d.enemies.len() {
            for j in i + 1..d.enemies.len() {
                let (a, b) = (d.enemies[i], d.enemies[j]);
                assert!(a.x != b.x || a.y != b.y);
            }
        }
    }
}

#[test]
fn adjacent_enemies_fight() {
    let mut rng = StdRng::seed_from_u64(8);
    let mut d = Dungeon::new(&mut rng, 1, 1, 5, 5, player_at(4, 4));
    d.mazes[0][0] = open_maze(5, 5);
    d.enemies.push(Entity::new(0, 0, 1, 0, 2, 0, false));
    d.enemies.push(Entity::new(1, 0, 5, 0, 1, 0, false));
    d.move_enemies();
    assert_eq!(d.enemies.len(), 1);
    assert_eq!(d.enemies[0].health, 3);
}

#[test]
fn adjacency_respects_walls() {
    let mut m = Maze::new(3, 3);
    assert!(!is_adjacent(0, 0, 1, 0, &m));
    m.remove_wall(0, 0, 1).unwrap();
    assert!(is_adjacent(0, 0, 1, 0, &m));
    assert!(!is_adjacent(0, 0, 1, 1, &m));
    assert_eq!(manhattan(0, 0, 3, 4), 7);
    assert_eq!(manhattan(5, 1, 2, 3), 5);
}

#[test]
fn cell_access_errors() {
    let mut m = Maze::new(3, 2);
    assert_eq!(m.get_cell_walls(2, 0), Err(GameError::OutOfRange));
    assert_eq!(m.get_cell_walls(1, 2), Ok((true, true, true, true)));
    assert_eq!(m.remove_wall(0, 3, 0), Err(GameError::OutOfRange));
    assert_eq!(m.remove_wall(0, 0, 4), Err(GameError::InvalidArgument));
    assert_eq!(m.set_cell_visited(5, 5), Err(GameError::OutOfRange));
    assert_eq!(m.set_cell_visited(1, 1), Ok(()));
    assert!(m.grid[1][1].visited);
    assert!(m.can_move(0, 0, 0) == false);
    m.remove_wall(0, 0, 0).unwrap();
    assert!(m.can_move(0, 0, 0));
    assert!(!m.can_move(0, 0, 9));
}

#[test]
fn chest_opens_once() {
    let mut c = Chest::new(1, 2, Some(ChestContent::gold(30)));
    assert!(!c.is_empty());
    assert_eq!(c.open(), Some(ChestContent::Gold { amount: 30 }));
    assert!(c.is_empty());
    assert_eq!(c.open(), None);
    let mut k = Chest::new(0, 0, Some(ChestContent::key()));
    assert_eq!(k.open(), Some(ChestContent::Key {}));
    assert_eq!(ChestContent::sword(), ChestContent::Sword {});
    assert_eq!(ChestContent::shield(), ChestContent::Shield {});
    assert_eq!(ChestContent::potion(), ChestContent::Potion {});
}

#[test]
fn move_to_room_checks_range() {
    let mut rng = StdRng::seed_from_u64(12);
    let mut d = Dungeon::new(&mut rng, 3, 3, 5, 5, player_at(1, 1));
    assert_eq!(d.move_to_room(&mut rng, 3, 0), Err(GameError::OutOfRange));
    assert_eq!((d.current_room_row, d.current_room_col), (1, 1));
    assert_eq!(d.move_to_room(&mut rng, 0, 0), Ok(()));
    assert_eq!((d.current_room_row, d.current_room_col), (0, 0));
    assert_eq!(d.enemies.len(), 3);
    for e in &d.enemies {
        assert_eq!((e.health, e.attack), (5, 2));
    }
    assert!(std::ptr::eq(d.current_maze(), &d.mazes[0][0]));
}

#[test]
fn astar_route_steps_through_open_walls() {
    let mut rng = StdRng::seed_from_u64(21);
    let mut m = Maze::new(6, 6);
    m.generate_maze(&mut rng, None).unwrap();
    let path = astar(&m, (0, 0), (5, 5)).unwrap();
    assert!(path.len() - 1 >= 10);
    for w in path.windows(2) {
        let ((x1, y1), (x2, y2)) = (w[0], w[1]);
        assert!(is_adjacent(x1, y1, x2, y2, &m));
    }
}

#[test]
fn lone_enemy_steps_toward_player() {
    let mut rng = StdRng::seed_from_u64(30);
    let mut d = Dungeon::new(&mut rng, 1, 1, 5, 5, player_at(4, 4));
    d.mazes[0][0] = open_maze(5, 5);
    d.enemies.push(Entity::new(0, 0, 3, 0, 1, 0, false));
    d.move_enemies();
    assert_eq!(d.enemies.len(), 1);
    let e = d.enemies[0];
    assert!((e.x, e.y) == (1, 0) || (e.x, e.y) == (0, 1));
    assert_eq!(manhattan(e.x, e.y, 4, 4), 7);
    assert_eq!(e.health, 3);
}

#[test]
fn enemy_next_to_player_holds() {
    let mut rng = StdRng::seed_from_u64(31);
    let mut d = Dungeon::new(&mut rng, 1, 1, 5, 5, player_at(2, 2));
    d.mazes[0][0] = open_maze(5, 5);
    d.enemies.push(Entity::new(2, 1, 3, 0, 1, 0, false));
    d.enemies.push(Entity::new(3, 1, 3, 0, 1, 0, false));
    d.move_enemies();
    // The first enemy holds and hits nobody; the second is next to the
    // first, which was alive, so it hits it once and holds.
    assert_eq!((d.enemies[0].x, d.enemies[0].y), (2, 1));
    assert_eq!(d.enemies[0].health, 2);
    assert_eq!((d.enemies[1].x, d.enemies[1].y), (3, 1));
    assert_eq!(d.enemies[1].health, 3);
}

#[test]
fn retaliation_follows_a_move() {
    let mut rng = StdRng::seed_from_u64(32);
    let mut d = Dungeon::new(&mut rng, 1, 1, 5, 5, Entity::new(2, 2, 10, 1, 1, 0, true));
    d.mazes[0][0] = open_maze(5, 5);
    d.enemies.push(Entity::new(3, 0, 3, 0, 4, 0, false));
    assert_eq!(d.move_player(&mut rng, "up"), Ok(true));
    assert_eq!((d.player.x, d.player.y), (2, 1));
    // The enemy at (3, 0) is diagonal, so it does not hit; then it steps next to the player.
    assert_eq!(d.player.health, 10);
    d.enemies.clear();
    d.enemies.push(Entity::new(3, 1, 3, 0, 4, 0, false));
    assert_eq!(d.move_player(&mut rng, "left"), Ok(true));
    assert_eq!(d.player.health, 10);
    assert_eq!(d.move_player(&mut rng, "right"), Ok(true));
    assert_eq!(d.player.health, 7);
}

#[test]
fn transition_spawns_plain_enemies() {
    let mut rng = StdRng::seed_from_u64(33);
    let mut d = Dungeon::new(&mut rng, 3, 3, 5, 5, player_at(2, 0));
    assert_eq!(d.move_player(&mut rng, "up"), Ok(true));
    assert_eq!(d.player.health, 10);
    for e in &d.enemies {
        assert_eq!((e.armor, e.gold, e.is_player), (0, 0, false));
        assert!((e.x, e.y) != (d.player.x, d.player.y));
    }
}

fn open_pair_count(m: &Maze) -> usize {
    let mut n = 0;
    for r in 0..m.height {
        for c in 0..m.width {
            if c + 1 < m.width && !m.grid[r][c].walls[1] && !m.grid[r][c + 1].walls[3] {
                n += 1;
            }
            if r + 1 < m.height && !m.grid[r][c].walls[2] && !m.grid[r + 1][c].walls[0] {
                n += 1;
            }
        }
    }
    n
}

#[test]
fn carving_makes_a_spanning_tree() {
    let mut rng = StdRng::seed_from_u64(40);
    for (w, h) in [(1, 1), (1, 5), (4, 4), (9, 6)] {
        let mut m = Maze::new(w, h);
        m.generate_maze(&mut rng, None).unwrap();
        assert_eq!(open_pair_count(&m), w * h - 1);
        assert_eq!(reachable_count(&m), w * h);
    }
}
