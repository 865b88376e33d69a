use rustzilla::availability::{find_room, free_rooms, QueryWindow, Reservation, Room};

fn room(name: &str, size: u32, reservations: &[(u32, u32)]) -> Room {
    let mut room = Room::new(name.to_string(), 1, size);
    for (start, end) in reservations {
        room.reserve(Reservation::new(*start, *end));
    }
    room
}

fn names(rooms: &[&Room]) -> Vec<String> {
    rooms.iter().map(|room| room.name.clone()).collect()
}

#[test]
fn window_touching_the_start_is_free() {
    let reservation = Reservation::new(1000, 2000);
    assert!(!reservation.conflicts_with(&QueryWindow::new(500, 1000)));
}

#[test]
fn window_touching_the_end_is_free() {
    let reservation = Reservation::new(1000, 2000);
    assert!(!reservation.conflicts_with(&QueryWindow::new(2000, 2500)));
}

#[test]
fn window_reaching_into_the_reservation_is_blocked() {
    let reservation = Reservation::new(1000, 2000);
    assert!(reservation.conflicts_with(&QueryWindow::new(1000, 1500)));
    assert!(reservation.conflicts_with(&QueryWindow::new(500, 1001)));
    assert!(reservation.conflicts_with(&QueryWindow::new(1999, 2500)));
    assert!(reservation.conflicts_with(&QueryWindow::new(1200, 1800)));
}

#[test]
fn window_containing_the_reservation_is_blocked() {
    let reservation = Reservation::new(1000, 2000);
    assert!(reservation.conflicts_with(&QueryWindow::new(500, 2500)));
    assert!(reservation.conflicts_with(&QueryWindow::new(999, 2001)));
}

#[test]
fn window_apart_from_the_reservation_is_free() {
    let reservation = Reservation::new(1000, 2000);
    assert!(!reservation.conflicts_with(&QueryWindow::new(0, 999)));
    assert!(!reservation.conflicts_with(&QueryWindow::new(2001, 3000)));
}

#[test]
fn window_sharing_an_end_and_covering_is_not_blocked() {
    // The rule compares strictly on both sides, so it lets these pass.
    let reservation = Reservation::new(1000, 2000);
    assert!(!reservation.conflicts_with(&QueryWindow::new(1000, 2000)));
    assert!(!reservation.conflicts_with(&QueryWindow::new(1000, 2500)));
    assert!(!reservation.conflicts_with(&QueryWindow::new(500, 2000)));
}

#[test]
fn the_rule_treats_both_ends_alike() {
    let mirror = |x: u32| u32::MAX - x;
    let values = [0u32, 500, 999, 1000, 1001, 1500, 1999, 2000, 2001, 2500];
    let reservation = Reservation::new(1000, 2000);
    let mirrored = Reservation::new(mirror(2000), mirror(1000));
    for start in values {
        for end in values {
            let window = QueryWindow::new(start, end);
            let back = QueryWindow::new(mirror(end), mirror(start));
            assert_eq!(reservation.conflicts_with(&window), mirrored.conflicts_with(&back));
        }
    }
}

#[test]
fn the_rule_misses_only_covering_windows_that_share_an_end() {
    let values = [0u32, 1, 2, 3, 4, 5];
    for rs in values {
        for re in values {
            for ws in values {
                for we in values {
                    if rs >= re || ws >= we {
                        continue;
                    }
                    let overlap = ws < re && rs < we;
                    let missed = ws <= rs && re <= we && (ws == rs || we == re);
                    let blocked = Reservation::new(rs, re).conflicts_with(&QueryWindow::new(ws, we));
                    assert_eq!(blocked, overlap && !missed, "{} {} {} {}", rs, re, ws, we);
                }
            }
        }
    }
}

#[test]
fn backwards_window_is_judged_by_the_same_comparisons() {
    let reservation = Reservation::new(1000, 2000);
    assert!(reservation.conflicts_with(&QueryWindow::new(1500, 100)));
    assert!(reservation.conflicts_with(&QueryWindow::new(3000, 1500)));
    assert!(!reservation.conflicts_with(&QueryWindow::new(3000, 500)));
}

#[test]
fn room_is_free_when_no_reservation_blocks() {
    let busy = room("busy", 4, &[(0, 100), (1000, 2000), (5000, 6000)]);
    assert!(busy.is_free(&QueryWindow::new(100, 1000)));
    assert!(busy.is_free(&QueryWindow::new(2000, 5000)));
    assert!(!busy.is_free(&QueryWindow::new(100, 1001)));
    assert!(!busy.is_free(&QueryWindow::new(5500, 7000)));
    assert!(!busy.is_free(&QueryWindow::new(50, 60)));
    let empty = room("empty", 2, &[]);
    assert!(empty.is_free(&QueryWindow::new(0, u32::MAX)));
}

#[test]
fn free_rooms_keeps_the_free_ones_in_order() {
    let rooms = vec![
        room("A", 4, &[(1000, 2000)]),
        room("B", 2, &[]),
        room("C", 8, &[(0, 500), (3000, 4000)]),
        room("D", 6, &[(1400, 1600)]),
    ];
    let free = free_rooms(&rooms, &QueryWindow::new(1000, 1500));
    assert_eq!(names(&free), vec!["B", "C"]);
    let free = free_rooms(&rooms, &QueryWindow::new(2000, 3000));
    assert_eq!(names(&free), vec!["A", "B", "C", "D"]);
    let free = free_rooms(&rooms, &QueryWindow::new(0, 5000));
    assert_eq!(names(&free), vec!["B"]);
    assert_eq!(free[0].size, 2);
}

#[test]
fn free_rooms_of_no_rooms_is_empty() {
    let rooms: Vec<Room> = Vec::new();
    assert!(free_rooms(&rooms, &QueryWindow::new(0, 3600)).is_empty());
}

#[test]
fn free_rooms_twice_gives_the_same_rooms() {
    let rooms = vec![
        room("A", 4, &[(1000, 2000)]),
        room("B", 2, &[]),
        room("C", 8, &[(1200, 1300)]),
    ];
    let before = rooms.clone();
    let window = QueryWindow::new(900, 1100);
    let first = free_rooms(&rooms, &window);
    let second = free_rooms(&rooms, &window);
    assert_eq!(first, second);
    assert_eq!(names(&first), vec!["B", "C"]);
    assert_eq!(rooms, before);
    let kept: Vec<Room> = first.iter().map(|room| (*room).clone()).collect();
    let again = free_rooms(&kept, &window);
    assert_eq!(names(&again), names(&first));
}

#[test]
fn find_room_gives_the_first_of_the_name() {
    let rooms = vec![room("A", 4, &[]), room("B", 2, &[]), room("A", 9, &[])];
    assert_eq!(find_room(&rooms, "A"), Some(0));
    assert_eq!(find_room(&rooms, "B"), Some(1));
    assert_eq!(find_room(&rooms, "C"), None);
    assert_eq!(find_room(&rooms, ""), None);
    assert_eq!(find_room(&rooms, "a"), None);
}

#[test]
fn reserve_books_last() {
    let mut a = Room::new("A".to_string(), -1, 4);
    assert_eq!((a.floor, a.size, a.reservations.len()), (-1, 4, 0));
    a.reserve(Reservation::new(10, 20));
    a.reserve(Reservation::new(5, 6));
    assert_eq!(a.reservations, vec![Reservation::new(10, 20), Reservation::new(5, 6)]);
}
