use aoc::days::day_7::DaySeven;

#[test]
fn test_filesystem_p1() {
    let input="$ cd /
$ ls
dir a
14848514 b.txt
8504156 c.dat
dir d
$ cd a
$ ls
dir e
29116 f
2557 g
62596 h.lst
$ cd e
$ ls
584 i
$ cd ..
$ cd ..
$ cd d
$ ls
4060174 j
8033020 d.log
5626152 d.ext
7214296 k";
    assert_eq!(DaySeven{}.part_one(&input), "Sum of sizes below 100000: 95437");
}

#[test]
fn test_filesystem_p2() {
    let input="$ cd /
$ ls
dir a
14848514 b.txt
8504156 c.dat
dir d
$ cd a
$ ls
dir e
29116 f
2557 g
62596 h.lst
$ cd e
$ ls
584 i
$ cd ..
$ cd ..
$ cd d
$ ls
4060174 j
8033020 d.log
5626152 d.ext
7214296 k";
    assert_eq!(DaySeven{}.part_two(&input), "Size to be deleted: 24933642");
}
