//! The software-rendering decision of the desktop window.

use gut_loader::display::{is_virtual_or_software_display_adapter, should_disable_webview_gpu, DISPLAY_DEVICE_REMOTE};

#[test]
fn virtual_adapters() {
    assert!(is_virtual_or_software_display_adapter("VMware SVGA 3D", 0));
    assert!(is_virtual_or_software_display_adapter("Microsoft Basic Display Adapter", 0));
    assert!(!is_virtual_or_software_display_adapter("NVIDIA GeForce RTX 4090", 0));
    assert!(is_virtual_or_software_display_adapter("NVIDIA GeForce RTX 4090", DISPLAY_DEVICE_REMOTE));
}

#[test]
fn gpu_is_turned_off_only_when_all_adapters_are_virtual() {
    assert!(!should_disable_webview_gpu(&vec![]));
    assert!(should_disable_webview_gpu(&vec![("QXL".to_string(), 0), ("RDP Encoder".to_string(), 0)]));
    assert!(!should_disable_webview_gpu(&vec![("QXL".to_string(), 0), ("Intel UHD".to_string(), 0)]));
}
