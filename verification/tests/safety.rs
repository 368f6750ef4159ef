use purify::safety::is_protected;

#[test]
fn windows_system_dirs_are_protected() {
    assert!(is_protected(r"C:\Windows\System32\kernel32.dll"));
    assert!(is_protected(r"C:\Program Files\App\bin.exe"));
    assert!(is_protected(r"c:\program files (x86)\x\y.dll"));
}

#[test]
fn case_and_slash_insensitive() {
    assert!(is_protected(r"C:/WINDOWS/system32"));
}

#[test]
fn protected_pseudo_files_by_name() {
    assert!(is_protected(r"C:\pagefile.sys"));
    assert!(is_protected(r"D:\hiberfil.sys"));
}

#[test]
fn drive_root_is_protected() {
    assert!(is_protected(r"C:\"));
    assert!(is_protected("C:"));
}

#[test]
fn ordinary_user_files_are_not_protected() {
    assert!(!is_protected(r"C:\Users\me\Downloads\setup.exe"));
    assert!(!is_protected(r"D:\projects\app\node_modules\x"));
    // A prefix that only *starts* like a protected one but isn't a boundary.
    assert!(!is_protected(r"C:\Windows Games\save.dat"));
}

#[test]
fn protected_roots_and_names_in_detail() {
    assert!(is_protected(r"c:\windows"));
    assert!(is_protected(r"C:\Boot\BCD"));
    assert!(is_protected(r"c:\$Recycle.Bin\S-1-5-18\x"));
    assert!(!is_protected(r"c:\$Recycle.Bin\S-1-5-21\x"));
    assert!(is_protected(r"E:\stuff\bootmgr\"));
    assert!(is_protected(r"d:\\\"));
    assert!(!is_protected(r"cd:"));
    assert!(is_protected(r"D:\Windows\System32\x.dll"));
    assert!(!is_protected(""));
}

#[test]
fn system_locations_are_protected_on_any_drive() {
    assert!(is_protected(r"D:\Windows\System32\kernel32.dll"));
    assert!(is_protected(r"E:\Program Files\App\a.exe"));
    assert!(is_protected(r"e:/program files (x86)/x"));
    assert!(is_protected(r"F:\Boot\BCD"));
    assert!(is_protected(r"G:\Recovery\WindowsRE\winre.wim"));
    assert!(is_protected(r"D:\System Volume Information\x"));
    assert!(!is_protected(r"D:\Windows Games\save.dat"));
    assert!(!is_protected(r"\Windows\System32\x.dll"));
}

#[test]
fn regenerated_windows_caches_are_reclaimable() {
    assert!(!is_protected(r"C:\Windows\Temp\a.tmp"));
    assert!(!is_protected(r"D:\Windows\Prefetch\APP.EXE-1234.pf"));
    assert!(!is_protected(r"C:\Windows\Logs\CBS\CBS.log"));
    assert!(!is_protected(r"C:\Windows\SoftwareDistribution\Download\abc\x.cab"));
    assert!(!is_protected(r"C:\Windows\SoftwareDistribution\DeliveryOptimization\Cache\x"));
    assert!(!is_protected(
        r"C:\Windows\ServiceProfiles\NetworkService\AppData\Local\Microsoft\Windows\DeliveryOptimization\Cache\x"
    ));
    assert!(!is_protected(r"C:\ProgramData\Microsoft\Windows\WER\ReportArchive\r.wer"));
    // The cache folders themselves, and everything else under the roots, stay protected.
    assert!(is_protected(r"C:\Windows\Temp"));
    assert!(is_protected(r"C:\Windows\Temp\"));
    assert!(is_protected(r"C:\Windows\WinSxS\x.dll"));
    assert!(is_protected(r"C:\Windows\System32\drivers\etc\hosts"));
    assert!(is_protected(r"C:\Windows\Temporary\x"));
    assert!(is_protected(r"C:\ProgramData\Microsoft\Windows\Start Menu\x.lnk"));
    // Pseudo-files stay protected even inside a cache.
    assert!(is_protected(r"C:\Windows\Temp\pagefile.sys"));
}
