use vstd::prelude::*;
use vstd::string::StringExecFns;
use crate::instance::{Instance, InstanceView};
use crate::util::dec_digits;

verus! {

/// Orchestrates the monitoring stack: a prometheus and grafana instance on
/// a dedicated machine scraping the testbed's nodes. This module computes
/// the shell commands and configuration texts; running them over the wire
/// is the (external) transport layer's business.
pub struct Monitor {
    instance: Instance,
    clients: Vec<Instance>,
    nodes: Vec<Instance>,
}

impl Monitor {
    pub closed spec fn instance_spec(self) -> InstanceView {
        self.instance@
    }

    /// A monitor running on `instance`, watching the given clients and
    /// nodes.
    pub fn new(instance: Instance, clients: Vec<Instance>, nodes: Vec<Instance>) -> (monitor: Monitor)
        ensures
            monitor.instance_spec() == instance@,
    {
        Monitor { instance, clients, nodes }
    }

    /// Commands installing the whole monitoring stack.
    pub fn dependencies() -> (commands: Vec<String>)
        ensures
            commands.deep_view() =~= prometheus_install_spec() + grafana_install_spec()
                + node_exporter_install_spec(),
    {
        let mut commands: Vec<String> = Vec::new();
        let prometheus = Prometheus::install_commands();
        let mut i: usize = 0;
        let n = prometheus.len();
        while i < n
            invariant
                i <= n,
                n == prometheus.deep_view().len(),
                prometheus.deep_view() == prometheus_install_spec(),
                commands.deep_view() =~= prometheus_install_spec().take(i as int),
            decreases n - i,
        {
            let cmd: &'static str = prometheus[i];
            let ghost pre = commands.deep_view();
            commands.push(cmd.to_owned());
            proof {
                assert(commands.deep_view() =~= pre.push(cmd@));
                assert(commands.deep_view() =~= prometheus_install_spec().take(i + 1));
            }
            i = i + 1;
        }
        let grafana = Grafana::install_commands();
        let mut i: usize = 0;
        let n = grafana.len();
        while i < n
            invariant
                i <= n,
                n == grafana.deep_view().len(),
                grafana.deep_view() == grafana_install_spec(),
                commands.deep_view() =~= prometheus_install_spec() + grafana_install_spec().take(
                    i as int,
                ),
            decreases n - i,
        {
            let cmd: &'static str = grafana[i];
            let ghost pre = commands.deep_view();
            commands.push(cmd.to_owned());
            proof {
                assert(commands.deep_view() =~= pre.push(cmd@));
                assert(commands.deep_view() =~= prometheus_install_spec()
                    + grafana_install_spec().take(i + 1));
            }
            i = i + 1;
        }
        let exporter = NodeExporter::install_commands();
        let mut i: usize = 0;
        let n = exporter.len();
        while i < n
            invariant
                i <= n,
                n == exporter.deep_view().len(),
                exporter.deep_view() == node_exporter_install_spec(),
                commands.deep_view() =~= prometheus_install_spec() + grafana_install_spec()
                    + node_exporter_install_spec().take(i as int),
            decreases n - i,
        {
            let cmd: String = exporter[i].clone();
            let ghost pre = commands.deep_view();
            proof {
                assert(cmd@ == exporter.deep_view()[i as int]);
            }
            commands.push(cmd);
            proof {
                assert(commands.deep_view() =~= pre.push(node_exporter_install_spec()[i as int]));
                assert(commands.deep_view() =~= prometheus_install_spec() + grafana_install_spec()
                    + node_exporter_install_spec().take(i + 1));
            }
            i = i + 1;
        }
        proof {
            assert(prometheus_install_spec().take(prometheus_install_spec().len() as int)
                =~= prometheus_install_spec());
            assert(grafana_install_spec().take(grafana_install_spec().len() as int)
                =~= grafana_install_spec());
            assert(node_exporter_install_spec().take(node_exporter_install_spec().len() as int)
                =~= node_exporter_install_spec());
        }
        commands
    }

    /// The public address of the grafana instance.
    pub fn grafana_address(&self) -> (address: String)
        ensures
            address@ == "http://"@ + self.instance_spec().main_ip + ":3000"@,
    {
        let mut address = "http://".to_owned();
        address.append(self.instance.main_ip.as_str());
        address.append(":3000");
        address
    }
}

/// The commands installing prometheus.
pub open spec fn prometheus_install_spec() -> Seq<Seq<char>> {
    seq![
        "sudo apt-get -y install prometheus"@,
        "sudo chmod 777 -R /var/lib/prometheus/ /etc/prometheus/"@,
    ]
}

/// Generates prometheus setup material.
pub struct Prometheus {
}

impl Prometheus {
    /// The commands to install prometheus.
    pub fn install_commands() -> (commands: Vec<&'static str>)
        ensures
            commands.deep_view() =~= prometheus_install_spec(),
    {
        let mut commands: Vec<&'static str> = Vec::new();
        commands.push("sudo apt-get -y install prometheus");
        commands.push("sudo chmod 777 -R /var/lib/prometheus/ /etc/prometheus/");
        commands
    }

    /// The global prometheus configuration. The configuration is yaml, so
    /// the spacing matters.
    pub fn global_configuration() -> (config: String)
        ensures
            config@
                == "global:\n  scrape_interval: 5s\n  evaluation_interval: 5s\nscrape_configs:"@,
    {
        "global:\n  scrape_interval: 5s\n  evaluation_interval: 5s\nscrape_configs:".to_owned()
    }
}

/// The commands installing grafana.
pub open spec fn grafana_install_spec() -> Seq<Seq<char>> {
    seq![
        "sudo apt-get install -y apt-transport-https software-properties-common wget"@,
        "sudo wget -q -O /etc/apt/keyrings/grafana.key https://apt.grafana.com/gpg.key"@,
        "(sudo rm /etc/apt/sources.list.d/grafana.list || true)"@,
        "echo \"deb [signed-by=/etc/apt/keyrings/grafana.key] https://apt.grafana.com stable main\" | sudo tee -a /etc/apt/sources.list.d/grafana.list"@,
        "sudo apt-get update"@,
        "sudo apt-get install -y grafana"@,
        "sudo chmod 777 -R /etc/grafana/"@,
    ]
}

/// Generates grafana setup material.
pub struct Grafana {
}

impl Grafana {
    /// The commands to install grafana.
    pub fn install_commands() -> (commands: Vec<&'static str>)
        ensures
            commands.deep_view() =~= grafana_install_spec(),
    {
        let mut commands: Vec<&'static str> = Vec::new();
        commands.push("sudo apt-get install -y apt-transport-https software-properties-common wget");
        commands.push("sudo wget -q -O /etc/apt/keyrings/grafana.key https://apt.grafana.com/gpg.key");
        commands.push("(sudo rm /etc/apt/sources.list.d/grafana.list || true)");
        commands.push(
            "echo \"deb [signed-by=/etc/apt/keyrings/grafana.key] https://apt.grafana.com stable main\" | sudo tee -a /etc/apt/sources.list.d/grafana.list",
        );
        commands.push("sudo apt-get update");
        commands.push("sudo apt-get install -y grafana");
        commands.push("sudo chmod 777 -R /etc/grafana/");
        commands
    }

    /// The command updating the grafana datasource and restarting grafana.
    pub fn setup_commands() -> (command: String)
        ensures
            command@ == "(rm -r /etc/grafana/provisioning/datasources || true) && mkdir -p /etc/grafana/provisioning/datasources && sudo echo \""@
                + grafana_datasource_spec()
                + "\" > /etc/grafana/provisioning/datasources/testbed.yml && sudo service grafana-server restart"@,
    {
        let mut command =
            "(rm -r /etc/grafana/provisioning/datasources || true) && mkdir -p /etc/grafana/provisioning/datasources && sudo echo \"".to_owned();
        let datasource = Self::datasource();
        command.append(datasource.as_str());
        command.append(
            "\" > /etc/grafana/provisioning/datasources/testbed.yml && sudo service grafana-server restart",
        );
        command
    }

    /// The content of the datasource file pointing grafana at the local
    /// prometheus server. The file is yaml, so the spacing matters.
    pub fn datasource() -> (content: String)
        ensures
            content@ == grafana_datasource_spec(),
    {
        "apiVersion: 1\ndeleteDatasources:\n  - name: testbed\n    orgId: 1\ndatasources:\n  - name: testbed\n    type: prometheus\n    access: proxy\n    orgId: 1\n    url: http://localhost:9090\n    editable: true\n    uid: Fixed-UID-testbed".to_owned()
    }
}

/// The grafana datasource file contents.
pub open spec fn grafana_datasource_spec() -> Seq<char> {
    "apiVersion: 1\ndeleteDatasources:\n  - name: testbed\n    orgId: 1\ndatasources:\n  - name: testbed\n    type: prometheus\n    access: proxy\n    orgId: 1\n    url: http://localhost:9090\n    editable: true\n    uid: Fixed-UID-testbed"@
}

/// Bootstraps a local grafana with one datasource per instance, each
/// assuming a prometheus server on that instance.
pub struct LocalGrafana {
}

impl LocalGrafana {
    /// The content of the datasource file for the given instance. The file
    /// is yaml, so the spacing matters.
    pub fn datasource(instance: &Instance, index: u64) -> (content: String)
        ensures
            content@ == "apiVersion: 1\ndeleteDatasources:\n  - name: instance-"@ + dec_digits(
                index as nat,
            ) + "\n    orgId: 1\ndatasources:\n  - name: instance-"@ + dec_digits(index as nat)
                + "\n    type: prometheus\n    access: proxy\n    orgId: 1\n    url: http://"@
                + instance@.main_ip + ":9090\n    editable: true\n    uid: UID-"@ + dec_digits(
                index as nat,
            ),
    {
        let digits = crate::util::u64_to_string(index);
        let mut content = "apiVersion: 1\ndeleteDatasources:\n  - name: instance-".to_owned();
        content.append(digits.as_str());
        content.append("\n    orgId: 1\ndatasources:\n  - name: instance-");
        content.append(digits.as_str());
        content.append("\n    type: prometheus\n    access: proxy\n    orgId: 1\n    url: http://");
        content.append(instance.main_ip.as_str());
        content.append(":9090\n    editable: true\n    uid: UID-");
        content.append(digits.as_str());
        content
    }
}

/// The commands installing the node exporter.
pub open spec fn node_exporter_install_spec() -> Seq<Seq<char>> {
    seq![
        "(sudo systemctl status node_exporter && exit 0)"@,
        "curl -LO https://github.com/prometheus/node_exporter/releases/download/v0.18.1/node_exporter-0.18.1.linux-amd64.tar.gz"@,
        "tar -xvf node_exporter-0.18.1.linux-amd64.tar.gz"@,
        "sudo mv node_exporter-0.18.1.linux-amd64/node_exporter /usr/local/bin/"@,
        "sudo useradd -rs /bin/false node_exporter || true"@,
        "sudo chmod 777 -R /etc/systemd/system/"@,
        "sudo echo \"[Unit]\nDescription=Node Exporter\nAfter=network.target\n[Service]\nUser=node_exporter\nGroup=node_exporter\nType=simple\nExecStart=/usr/local/bin/node_exporter --web.listen-address=:9200\n[Install]\nWantedBy=multi-user.target\" > /etc/systemd/system/node_exporter.service"@,
        "sudo systemctl daemon-reload"@,
        "sudo systemctl start node_exporter"@,
        "sudo systemctl enable node_exporter"@,
    ]
}

/// Generates node-exporter setup material.
pub struct NodeExporter {
}

impl NodeExporter {
    /// The commands to install the node exporter.
    pub fn install_commands() -> (commands: Vec<String>)
        ensures
            commands.deep_view() =~= node_exporter_install_spec(),
    {
        let mut commands: Vec<String> = Vec::new();
        commands.push("(sudo systemctl status node_exporter && exit 0)".to_owned());
        commands.push(
            "curl -LO https://github.com/prometheus/node_exporter/releases/download/v0.18.1/node_exporter-0.18.1.linux-amd64.tar.gz".to_owned(),
        );
        commands.push("tar -xvf node_exporter-0.18.1.linux-amd64.tar.gz".to_owned());
        commands.push("sudo mv node_exporter-0.18.1.linux-amd64/node_exporter /usr/local/bin/".to_owned());
        commands.push("sudo useradd -rs /bin/false node_exporter || true".to_owned());
        commands.push("sudo chmod 777 -R /etc/systemd/system/".to_owned());
        let mut service = "sudo echo \"".to_owned();
        let config = Self::service_config();
        service.append(config.as_str());
        service.append("\" > /etc/systemd/system/node_exporter.service");
        proof {
            reveal_strlit(
                "sudo echo \"[Unit]\nDescription=Node Exporter\nAfter=network.target\n[Service]\nUser=node_exporter\nGroup=node_exporter\nType=simple\nExecStart=/usr/local/bin/node_exporter --web.listen-address=:9200\n[Install]\nWantedBy=multi-user.target\" > /etc/systemd/system/node_exporter.service",
            );
            reveal_strlit("sudo echo \"");
            reveal_strlit("\" > /etc/systemd/system/node_exporter.service");
            reveal_strlit(
                "[Unit]\nDescription=Node Exporter\nAfter=network.target\n[Service]\nUser=node_exporter\nGroup=node_exporter\nType=simple\nExecStart=/usr/local/bin/node_exporter --web.listen-address=:9200\n[Install]\nWantedBy=multi-user.target",
            );
            assert(service@ =~= node_exporter_install_spec()[6]);
        }
        commands.push(service);
        commands.push("sudo systemctl daemon-reload".to_owned());
        commands.push("sudo systemctl start node_exporter".to_owned());
        commands.push("sudo systemctl enable node_exporter".to_owned());
        commands
    }

    /// The systemd unit running the node exporter. The spacing matters.
    pub fn service_config() -> (config: String)
        ensures
            config@
                == "[Unit]\nDescription=Node Exporter\nAfter=network.target\n[Service]\nUser=node_exporter\nGroup=node_exporter\nType=simple\nExecStart=/usr/local/bin/node_exporter --web.listen-address=:9200\n[Install]\nWantedBy=multi-user.target"@,
    {
        "[Unit]\nDescription=Node Exporter\nAfter=network.target\n[Service]\nUser=node_exporter\nGroup=node_exporter\nType=simple\nExecStart=/usr/local/bin/node_exporter --web.listen-address=:9200\n[Install]\nWantedBy=multi-user.target".to_owned()
    }
}

} // verus!
