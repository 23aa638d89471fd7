use page_table_arm::PTEFlags;
use qhyper::pte::{AccessSetting, CacheSetting, PTEGeneric, PTESetting, PageTableImpl};

fn access(bits: u8) -> AccessSetting {
    AccessSetting { read: bits & 1 != 0, write: bits & 2 != 0, execute: bits & 4 != 0 }
}

fn caches() -> [CacheSetting; 3] {
    [CacheSetting::Normal, CacheSetting::Device, CacheSetting::NonCache]
}

fn every_descriptor() -> Vec<PTEGeneric> {
    let mut all = Vec::new();
    for valid in [false, true] {
        for block in [false, true] {
            for global in [false, true] {
                for privilege in 0..8u8 {
                    for user in 0..8u8 {
                        for cache in caches() {
                            all.push(PTEGeneric {
                                paddr: 0x1234_5678_9000,
                                is_block: block,
                                is_valid: valid,
                                setting: PTESetting {
                                    is_global: global,
                                    privilege_access: access(privilege),
                                    user_access: access(user),
                                    cache_setting: cache,
                                },
                            });
                        }
                    }
                }
            }
        }
    }
    all
}

fn canonical(d: &PTEGeneric) -> bool {
    let s = &d.setting;
    s.user_access.write == (s.user_access.read && s.privilege_access.write)
}

#[test]
fn every_combination_is_enumerated() {
    assert_eq!(every_descriptor().len(), 2 * 2 * 2 * 8 * 8 * 3);
}

#[test]
fn canonical_descriptors_round_trip() {
    let mut seen = 0;
    for d in every_descriptor() {
        assert_eq!(d.is_canonical(), canonical(&d));
        if canonical(&d) {
            seen += 1;
            let word = PageTableImpl::new_pte(d);
            assert!(PageTableImpl::is_decodable(word));
            assert_eq!(PageTableImpl::read_pte(word), d);
        }
    }
    assert_eq!(seen, 2 * 2 * 2 * 8 * 4 * 3);
}

#[test]
fn decoded_descriptors_are_canonical_and_re_encode_to_the_same_word() {
    for d in every_descriptor() {
        let word = PageTableImpl::new_pte(d);
        assert!(PageTableImpl::is_decodable(word));
        let back = PageTableImpl::read_pte(word);
        assert!(canonical(&back));
        assert_eq!(PageTableImpl::new_pte(back), word);
        assert_eq!(PageTableImpl::read_pte(PageTableImpl::new_pte(back)), back);
    }
}

#[test]
fn distinct_canonical_descriptors_have_distinct_words() {
    let mut words: Vec<u64> = Vec::new();
    for d in every_descriptor() {
        if canonical(&d) {
            words.push(PageTableImpl::new_pte(d));
        }
    }
    let n = words.len();
    words.sort();
    words.dedup();
    assert_eq!(words.len(), n);
}

#[test]
fn kernel_text_page_word() {
    let d = PTEGeneric {
        paddr: 0x4008_0000,
        is_block: false,
        is_valid: true,
        setting: PTESetting {
            is_global: true,
            privilege_access: AccessSetting { read: true, write: false, execute: true },
            user_access: AccessSetting::empty(),
            cache_setting: CacheSetting::Normal,
        },
    };
    // valid, page, attribute index 1, read-only, access flag, no execution
    // for unprivileged code
    assert_eq!(PageTableImpl::new_pte(d), 0x0040_0000_4008_0487);
}

#[test]
fn device_block_word() {
    let d = PTEGeneric {
        paddr: 0x0900_0000,
        is_block: true,
        is_valid: true,
        setting: PTESetting {
            is_global: false,
            privilege_access: AccessSetting { read: true, write: true, execute: false },
            user_access: AccessSetting { read: true, write: true, execute: false },
            cache_setting: CacheSetting::Device,
        },
    };
    // valid, block, attribute index 0, unprivileged access, access flag, not
    // global, no execution at either level
    assert_eq!(PageTableImpl::new_pte(d), 0x0060_0000_0900_0c41);
}

#[test]
fn non_cacheable_uses_attribute_index_two() {
    let d = PTEGeneric {
        paddr: 0,
        is_block: false,
        is_valid: true,
        setting: PTESetting {
            is_global: true,
            privilege_access: AccessSetting { read: true, write: true, execute: true },
            user_access: AccessSetting { read: false, write: false, execute: true },
            cache_setting: CacheSetting::NonCache,
        },
    };
    assert_eq!(PageTableImpl::new_pte(d), 0x40b);
}

#[test]
fn address_is_cut_to_bits_12_to_47() {
    let d = PTEGeneric {
        paddr: 0xffff_1234_5678_9abc,
        is_block: true,
        is_valid: false,
        setting: PTESetting {
            is_global: true,
            privilege_access: AccessSetting::empty(),
            user_access: AccessSetting::empty(),
            cache_setting: CacheSetting::Normal,
        },
    };
    // attribute index 1, read-only, no execution at either level
    assert_eq!(PageTableImpl::new_pte(d), 0x0060_1234_5678_9084);
    assert_eq!(PageTableImpl::new_pte(d) & !0xfff & ((1 << 48) - 1), 0x0000_1234_5678_9000);
    assert_eq!(PageTableImpl::read_pte(0x0000_1234_5678_9000).paddr, 0x1234_5678_9000);
}

#[test]
fn invalid_descriptor_keeps_its_rights_and_cache_policy() {
    let d = PTEGeneric {
        paddr: 0x2000,
        is_block: true,
        is_valid: false,
        setting: PTESetting {
            is_global: true,
            privilege_access: AccessSetting { read: true, write: true, execute: true },
            user_access: AccessSetting::empty(),
            cache_setting: CacheSetting::Device,
        },
    };
    let word = PageTableImpl::new_pte(d);
    // access flag, no execution for unprivileged code, attribute index 0
    assert_eq!(word, 0x0040_0000_0000_2400);
    let back = PageTableImpl::read_pte(word);
    assert_eq!(back, d);
    assert!(!back.is_valid);
    assert_eq!(back.setting.privilege_access, AccessSetting { read: true, write: true, execute: true });
    assert_eq!(back.setting.cache_setting, CacheSetting::Device);
}

#[test]
fn invalid_descriptors_that_differ_in_a_right_have_different_words() {
    let mut d = PTEGeneric {
        paddr: 0x8000,
        is_block: false,
        is_valid: false,
        setting: PTESetting {
            is_global: false,
            privilege_access: AccessSetting { read: true, write: false, execute: false },
            user_access: AccessSetting::empty(),
            cache_setting: CacheSetting::NonCache,
        },
    };
    let first = PageTableImpl::new_pte(d);
    assert_eq!(first, 0x0060_0000_0000_8000 | 0x2 | 0x8 | 0x80 | 0x400 | 0x800);
    d.setting.privilege_access.execute = true;
    let second = PageTableImpl::new_pte(d);
    assert_eq!(second, first & !(1 << 53));
    assert_ne!(first, second);
    assert_eq!(PageTableImpl::read_pte(second), d);
}

#[test]
fn each_right_has_its_bit_whether_the_descriptor_is_valid_or_not() {
    for d in every_descriptor() {
        let word = PageTableImpl::new_pte(d);
        let s = d.setting;
        assert_eq!(word & 0x1 != 0, d.is_valid);
        assert_eq!(word & 0x2 != 0, !d.is_block);
        assert_eq!(word & 0x40 != 0, s.user_access.read);
        assert_eq!(word & 0x80 != 0, !s.privilege_access.write);
        assert_eq!(word & 0x400 != 0, s.privilege_access.read);
        assert_eq!(word & 0x800 != 0, !s.is_global);
        assert_eq!(word & (1 << 53) != 0, !s.privilege_access.execute);
        assert_eq!(word & (1 << 54) != 0, !s.user_access.execute);
        let index = (word >> 2) & 0b111;
        assert_eq!(
            index,
            match s.cache_setting {
                CacheSetting::Device => 0,
                CacheSetting::Normal => 1,
                CacheSetting::NonCache => 2,
            }
        );
    }
}

#[test]
fn empty_word_decodes_to_an_invalid_block() {
    let d = PageTableImpl::read_pte(0);
    assert!(!d.is_valid);
    assert!(d.is_block);
    assert!(d.setting.is_global);
    assert_eq!(d.paddr, 0);
    // no bit is set: no access flag, writable, executable, attribute index 0
    assert_eq!(d.setting.privilege_access, AccessSetting { read: false, write: true, execute: true });
    assert_eq!(d.setting.user_access, AccessSetting { read: false, write: false, execute: true });
    assert_eq!(d.setting.cache_setting, CacheSetting::Device);
    assert_eq!(PageTableImpl::new_pte(d), 0);
}

#[test]
fn read_pte_reads_each_flag() {
    // valid page, attribute index 1, everything permitted to privileged code
    let base: u64 = 0x1 | 0x2 | 0x4 | 0x400;
    let d = PageTableImpl::read_pte(base);
    assert!(d.is_valid && !d.is_block && d.setting.is_global);
    assert_eq!(d.setting.privilege_access, AccessSetting { read: true, write: true, execute: true });
    assert_eq!(d.setting.user_access, AccessSetting { read: false, write: false, execute: true });
    assert_eq!(d.setting.cache_setting, CacheSetting::Normal);

    let read_only = PageTableImpl::read_pte(base | 0x80);
    assert!(!read_only.setting.privilege_access.write);
    let unprivileged = PageTableImpl::read_pte(base | 0x40);
    assert_eq!(
        unprivileged.setting.user_access,
        AccessSetting { read: true, write: true, execute: true }
    );
    let unprivileged_ro = PageTableImpl::read_pte(base | 0x40 | 0x80);
    assert_eq!(
        unprivileged_ro.setting.user_access,
        AccessSetting { read: true, write: false, execute: true }
    );
    let pxn = PageTableImpl::read_pte(base | (1 << 53));
    assert!(!pxn.setting.privilege_access.execute);
    assert!(pxn.setting.user_access.execute);
    let uxn = PageTableImpl::read_pte(base | (1 << 54));
    assert!(uxn.setting.privilege_access.execute);
    assert!(!uxn.setting.user_access.execute);
    let not_global = PageTableImpl::read_pte(base | 0x800);
    assert!(!not_global.setting.is_global);
    let no_access_flag = PageTableImpl::read_pte(0x1 | 0x2 | 0x4);
    assert!(!no_access_flag.setting.privilege_access.read);
    let device = PageTableImpl::read_pte(0x1 | 0x2 | 0x400);
    assert_eq!(device.setting.cache_setting, CacheSetting::Device);
    let non_cache = PageTableImpl::read_pte(0x1 | 0x2 | 0x8 | 0x400);
    assert_eq!(non_cache.setting.cache_setting, CacheSetting::NonCache);
}

#[test]
fn unknown_attribute_index_is_not_decodable() {
    assert!(!PageTableImpl::is_decodable(0x1 | (3 << 2)));
    assert!(!PageTableImpl::is_decodable(0x1 | (7 << 2)));
    assert!(PageTableImpl::is_decodable(0x1 | (2 << 2)));
    // whether the word is valid or not
    assert!(!PageTableImpl::is_decodable(7 << 2));
    assert!(PageTableImpl::is_decodable(2 << 2));
    assert!(PageTableImpl::is_decodable(0));
}

#[test]
fn access_setting_helpers() {
    let rx = AccessSetting::read_only().union(AccessSetting::execute_only());
    assert_eq!(rx, AccessSetting { read: true, write: false, execute: true });
    assert!(rx.readable() && !rx.writable() && rx.executable());
    let w = AccessSetting::write_only();
    assert!(!w.readable() && w.writable() && !w.executable());
    assert_eq!(AccessSetting::empty().union(AccessSetting::empty()), AccessSetting::empty());
}

#[test]
fn codec_geometry() {
    assert_eq!(PageTableImpl::page_size(), 0x1000);
    assert_eq!(PageTableImpl::level(), 4);
}

#[test]
fn flag_masks_are_those_of_the_descriptor_format() {
    assert_eq!(qhyper::pte::KNOWN_FLAGS, PTEFlags::all().bits());
    assert_eq!(qhyper::pte::PADDR_MASK, ((1u64 << 48) - 1) & !0xfff);
    // each flag alone, read back from a word that holds nothing else
    let valid_page = |extra: u64| PageTableImpl::read_pte(0x1 | 0x2 | 0x4 | 0x400 | extra);
    assert!(!valid_page(PTEFlags::AP_RO.bits()).setting.privilege_access.write);
    assert!(valid_page(PTEFlags::AP_EL0.bits()).setting.user_access.read);
    assert!(!valid_page(PTEFlags::PXN.bits()).setting.privilege_access.execute);
    assert!(!valid_page(PTEFlags::UXN.bits()).setting.user_access.execute);
    assert!(!valid_page(PTEFlags::NG.bits()).setting.is_global);
    assert!(PageTableImpl::read_pte(PTEFlags::VALID.bits()).is_valid);
    assert!(!PageTableImpl::read_pte(PTEFlags::NON_BLOCK.bits()).is_block);
    assert!(PageTableImpl::read_pte((PTEFlags::VALID | PTEFlags::AF).bits()).setting.privilege_access.read);
    // bits that are no flag change nothing
    let plain = valid_page(0);
    assert_eq!(valid_page(1 << 55), plain);
    assert_eq!(valid_page(1 << 58), plain);
    assert_eq!(valid_page(1 << 51 | 1 << 50 | 1 << 49 | 1 << 48), plain);
}

#[test]
fn descriptor_with_an_address_outside_the_word_is_not_canonical() {
    let mut d = PTEGeneric {
        paddr: 0x4000_1000,
        is_block: false,
        is_valid: true,
        setting: PTESetting {
            is_global: true,
            privilege_access: AccessSetting { read: true, write: true, execute: false },
            user_access: AccessSetting::empty(),
            cache_setting: CacheSetting::Normal,
        },
    };
    assert!(d.is_canonical());
    d.paddr = 0x4000_1008;
    assert!(!d.is_canonical());
    assert_ne!(PageTableImpl::read_pte(PageTableImpl::new_pte(d)), d);
    d.paddr = 1 << 48;
    assert!(!d.is_canonical());
    d.paddr = (1 << 48) - 0x1000;
    assert!(d.is_canonical());
    assert_eq!(PageTableImpl::read_pte(PageTableImpl::new_pte(d)), d);
}
