use harrys_lilla_lager::theme::SystemTheme;

#[test]
fn test_theme_detection() {
    let theme = SystemTheme::detect(None);
    println!("Detected theme: {:?}", theme);

    match theme {
        SystemTheme::Light => println!("Should use black icon: {}", theme.tray_icon_filename()),
        SystemTheme::Dark => println!("Should use white icon: {}", theme.tray_icon_filename()),
    }
}

#[test]
fn theme_follows_light_flag() {
    assert_eq!(SystemTheme::detect(Some(0)), SystemTheme::Dark);
    assert_eq!(SystemTheme::detect(Some(1)), SystemTheme::Light);
    assert_eq!(SystemTheme::detect(None), SystemTheme::Light);
}

#[test]
fn tray_icon_per_theme() {
    assert_eq!(SystemTheme::Light.tray_icon_filename(), "tray-icon-black.png");
    assert_eq!(SystemTheme::Dark.tray_icon_filename(), "tray-icon-white.png");
}
