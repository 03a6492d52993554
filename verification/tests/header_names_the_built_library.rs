//! What a C header tells its readers to link.

/// Every `lib<something>.a` the header mentions, anywhere.
fn libraries_named(header: &str) -> Vec<String> {
    let mut out = Vec::new();
    for line in header.lines() {
        let mut rest = line;
        while let Some(i) = rest.find("lib") {
            let tail = &rest[i..];
            let name: String = tail
                .chars()
                .take_while(|c| c.is_ascii_alphanumeric() || *c == '_' || *c == '.')
                .collect();
            if name.ends_with(".a") && !out.contains(&name) {
                out.push(name);
            }
            rest = &rest[i + 3..];
        }
    }
    out
}

/// Whether the header tells a reader to link `want`: the instruction has to open the
/// sentence, after comment decoration and leading space.
fn states_the_link_instruction(header: &str, want: &str) -> bool {
    header.lines().any(|line| {
        let lowered = line.to_ascii_lowercase();
        let bare = lowered
            .trim_start()
            .trim_start_matches(['*', '/', '#', ' ']);
        match bare.strip_prefix("link with ") {
            Some(rest) => rest.trim_start().starts_with(want),
            None => false,
        }
    })
}

#[test]
fn the_link_instruction_must_open_the_sentence() {
    let want = "libvhdx.a";

    for accepted in [
        " * Link with libvhdx.a alongside fs_core.h.\n",
        "Link with libvhdx.a\n",
        "// Link with libvhdx.a and include this header.\n",
        "  # link with   libvhdx.a\n",
        " */ Link with libvhdx.a\n",
        " * unrelated first line\n * Link with libvhdx.a\n",
    ] {
        assert!(
            states_the_link_instruction(accepted, want),
            "{accepted:?} tells a consumer to link {want} and must be read as one"
        );
    }

    for refused in [
        " * Do not link with libvhdx.a; it is an implementation detail.\n",
        " * You must never link with libvhdx.a directly.\n",
        " * The build produces libvhdx.a in the target directory.\n",
        " * libvhdx.a was renamed in 0.4.0.\n",
        " * Link with libfs_core.a.\n",
        "",
    ] {
        assert!(
            !states_the_link_instruction(refused, want),
            "{refused:?} does not tell a consumer to link {want}"
        );
    }
}

#[test]
fn the_header_scan_finds_library_names_in_prose() {
    let header = " * Link with libvhdx.a alongside fs_core.h.\n";
    assert_eq!(libraries_named(header), vec!["libvhdx.a"]);

    assert_eq!(
        libraries_named(" * Link with libam_img_vhdx.a and include this\n"),
        vec!["libam_img_vhdx.a"]
    );

    assert!(libraries_named(" * This library is liberally licensed.\n").is_empty());
}
