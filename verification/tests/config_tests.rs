use rboot::config::{check_config, Config};

#[test]
fn parses_full_configuration_text() {
    let text = b"physical_memory_offset=0xffff800000000000\nkernel_path=\\k.elf\nresolution=1920x1080\ncmdline=root=/dev/sda1\n";
    let c = Config::parse(text);
    assert_eq!(c.physical_memory_offset, 0xffff_8000_0000_0000);
    assert_eq!(c.kernel_path, b"\\k.elf".to_vec());
    assert_eq!(c.resolution, Some((1920, 1080)));
    assert_eq!(c.cmdline, b"root=/dev/sda1".to_vec());
    assert!(c.initramfs.is_none());
}

#[test]
fn unknown_key_changes_nothing() {
    let text = b"physical_memory_offset=0xffff800000000000\nkernel_path=\\k.elf\nresolution=1920x1080\ncmdline=root=/dev/sda1\nfoo=bar\n";
    let c = Config::parse(text);
    assert_eq!(c.physical_memory_offset, 0xffff_8000_0000_0000);
    assert_eq!(c.kernel_path, b"\\k.elf".to_vec());
    assert_eq!(c.resolution, Some((1920, 1080)));
    assert_eq!(c.cmdline, b"root=/dev/sda1".to_vec());
    assert!(c.initramfs.is_none());
}

#[test]
fn empty_text_gives_defaults() {
    let c = Config::parse(b"");
    assert_eq!(c.kernel_stack_address, 0xFFFF_FF01_0000_0000);
    assert_eq!(c.kernel_stack_size, 512);
    assert_eq!(c.physical_memory_offset, 0xFFFF_8000_0000_0000);
    assert_eq!(c.kernel_path, b"\\EFI\\rCore\\kernel.elf".to_vec());
    assert!(c.resolution.is_none());
    assert!(c.initramfs.is_none());
    assert_eq!(c.cmdline, b"".to_vec());
}

#[test]
fn comments_and_blank_lines_are_ignored() {
    let c = Config::parse(b"# a comment\n\n   \n# another=comment\ncmdline=quiet\n");
    assert_eq!(c.cmdline, b"quiet".to_vec());
    assert_eq!(c.kernel_stack_size, 512);
}

#[test]
fn lines_are_trimmed() {
    let c = Config::parse(b"  kernel_stack_size=16  \r\n\tinitramfs=\\boot\\init.img\t\n");
    assert_eq!(c.kernel_stack_size, 16);
    assert_eq!(c.initramfs, Some(b"\\boot\\init.img".to_vec()));
}

#[test]
fn stack_keys_parse() {
    let c = Config::parse(b"kernel_stack_address=0xffffff0200000000\nkernel_stack_size=1024\n");
    assert_eq!(c.kernel_stack_address, 0xFFFF_FF02_0000_0000);
    assert_eq!(c.kernel_stack_size, 1024);
}

#[test]
fn hex_digits_of_both_cases_parse() {
    let c = Config::parse(b"physical_memory_offset=0xAbCdEf\n");
    assert_eq!(c.physical_memory_offset, 0xABCDEF);
}

#[test]
fn last_assignment_wins() {
    let c = Config::parse(b"kernel_stack_size=1\nkernel_stack_size=2\n");
    assert_eq!(c.kernel_stack_size, 2);
}

#[test]
fn text_without_final_newline_parses() {
    let c = Config::parse(b"cmdline=single");
    assert_eq!(c.cmdline, b"single".to_vec());
}

#[test]
fn value_may_contain_equals_sign() {
    let c = Config::parse(b"cmdline=a=b=c\n");
    assert_eq!(c.cmdline, b"a=b=c".to_vec());
}

#[test]
fn resolution_takes_the_first_two_parts() {
    let c = Config::parse(b"resolution=800x600\n");
    assert_eq!(c.resolution, Some((800, 600)));
}

#[test]
fn process_sets_one_field() {
    let mut c = Config::default();
    c.process(b"kernel_path", b"\\a.elf");
    assert_eq!(c.kernel_path, b"\\a.elf".to_vec());
    assert_eq!(c.kernel_stack_size, 512);
}

#[test]
fn process_ignores_unknown_key() {
    let mut c = Config::default();
    c.process(b"no_such_key", b"whatever");
    assert_eq!(c.kernel_stack_address, 0xFFFF_FF01_0000_0000);
    assert_eq!(c.kernel_stack_size, 512);
    assert_eq!(c.physical_memory_offset, 0xFFFF_8000_0000_0000);
    assert_eq!(c.cmdline, b"".to_vec());
}

#[test]
fn checker_accepts_well_formed_text() {
    assert!(check_config(b""));
    assert!(check_config(b"# note\n\nkernel_path=\\k.elf\nresolution=1920x1080\n"));
    assert!(check_config(
        b"physical_memory_offset=0xffff800000000000\nkernel_stack_size=512\nfoo=bar\n",
    ));
    assert!(check_config(b"cmdline=root=/dev/sda1"));
}

#[test]
fn checker_rejects_malformed_lines() {
    // a line without an equals sign
    assert!(!check_config(b"justtext\n"));
    // malformed numeric values for recognized keys
    assert!(!check_config(b"resolution=abc\n"));
    assert!(!check_config(b"kernel_stack_size=12x\n"));
    assert!(!check_config(b"physical_memory_offset=123456\n"));
    assert!(!check_config(b"physical_memory_offset=0x\n"));
    // a later bad line spoils the whole text
    assert!(!check_config(b"kernel_path=\\k.elf\nresolution=x1080\n"));
}
