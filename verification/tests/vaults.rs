use rune::vaults::{
    check_deletable, first_vault_name, new_vault_name, register_vault, remove_vault_entry, rename_vault, touch_last_opened,
    VaultInfo, VaultsError,
};

#[test]
fn register_is_idempotent() {
    let mut list: Vec<VaultInfo> = Vec::new();
    assert!(register_vault(&mut list, "default", "Personal", "t1"));
    assert!(!register_vault(&mut list, "default", "Other", "t2"));
    assert_eq!(list.len(), 1);
    assert_eq!(list[0].name, "Personal");
    assert_eq!(list[0].path, "default");
    assert_eq!(list[0].last_opened, "t1");
}

#[test]
fn touch_rename_and_delete() {
    let mut list: Vec<VaultInfo> = Vec::new();
    register_vault(&mut list, "a", "A", "t0");
    register_vault(&mut list, "b", "B", "t0");
    assert!(touch_last_opened(&mut list, "b", "t9"));
    assert!(!touch_last_opened(&mut list, "zz", "t9"));
    assert_eq!(list[1].last_opened, "t9");
    assert_eq!(list[0].last_opened, "t0");

    assert_eq!(rename_vault(&mut list, "a", "   "), Err(VaultsError::EmptyName));
    assert_eq!(rename_vault(&mut list, "zz", "X"), Err(VaultsError::NotFound));
    assert!(rename_vault(&mut list, "../a", "  Work  ").is_ok());
    assert_eq!(list[0].name, "Work");

    assert_eq!(check_deletable("a", "a"), Err(VaultsError::ActiveVault));
    assert_eq!(check_deletable("", "default"), Err(VaultsError::ActiveVault));
    let id = check_deletable("b", "a").unwrap();
    remove_vault_entry(&mut list, &id);
    assert_eq!(list.len(), 1);
    assert_eq!(VaultsError::ActiveVault.message(), "Cannot delete the active vault");
}

#[test]
fn vault_names() {
    assert_eq!(new_vault_name("  Home ").unwrap(), "Home");
    assert_eq!(new_vault_name(" \t").unwrap_err(), VaultsError::EmptyName);
    assert_eq!(first_vault_name("default"), "Personal");
    assert_eq!(first_vault_name("abc"), "abc");
}
